//! Pack listings of the sunxdcc service: the fields of a record, the
//! record, and a whole response.
//!
//! A response holds eight columns of text. Row by row they are decoded
//! into [`Entry`] values; a row with a field that does not decode is left
//! out and reported, and the rows after it are decoded all the same.
use crate::decimal::{
    decimal_text, lemma_scale_of_decimal, saturated, scale, spec_scale, DecimalError,
};
use crate::integer::{
    all_digits, digits_value, lemma_parse_of_digits, numeral, lemma_numeral, parse, pow10,
    spec_parse, IntegerError,
};
use crate::text::{
    all_in, ascii_lower, chars_of, is_digit, lemma_run_end_within, lemma_trim_padded, run_end,
    same_text, scan_run, slice, spec_ascii_lower, spec_is_digit, spec_trim, trim, CharClass,
};
use vstd::prelude::*;

verus! {

/// The name under which the service sends the size of a file.
pub const FILESIZE_FIELD: &'static str = "filesize";

/// A file size as the service writes it.
pub const FILESIZE_FORMAT: &'static str = "[1.1M]";

/// The name under which the service sends the number of downloads.
pub const GETS_FIELD: &'static str = "gets";

/// A number of downloads as the service writes it.
pub const GETS_FORMAT: &'static str = "42x";

/// The name under which the service sends the speed of a bot.
pub const SPEED_FIELD: &'static str = "botrec";

/// A speed as the service writes it.
pub const SPEED_FORMAT: &'static str = "123.4kB/s";

/// The name under which the service sends the number of a pack.
pub const PACKNUM_FIELD: &'static str = "packnum";

/// A pack number as the service writes it.
pub const PACKNUM_FORMAT: &'static str = "#42";

/// Why a field of a record could not be decoded.
#[derive(Clone, Debug, PartialEq)]
#[allow(inconsistent_fields)]
pub enum DecodingError {
    /// The field is not written in the shape that it should have: a
    /// bracket, a prefix or a suffix is missing, or the unit is unknown.
    InvalidFormat { field: &'static str, value: String, expected: &'static str },
    /// The field has its shape, but what should be a decimal number in
    /// it is none.
    InvalidFloat { field: &'static str, value: String, error: DecimalError },
    /// The field has its shape, but what should be a whole number in it
    /// is none.
    InvalidInt { field: &'static str, value: String, error: IntegerError },
}

/// The view of a [`DecodingError`]: every text as the sequence of its
/// characters.
#[allow(inconsistent_fields)]
pub enum Fault {
    InvalidFormat { field: Seq<char>, value: Seq<char>, expected: Seq<char> },
    InvalidFloat { field: Seq<char>, value: Seq<char>, error: DecimalError },
    InvalidInt { field: Seq<char>, value: Seq<char>, error: IntegerError },
}

impl View for DecodingError {
    type V = Fault;

    open spec fn view(&self) -> Fault {
        match self {
            DecodingError::InvalidFormat { field, value, expected } => Fault::InvalidFormat {
                field: field@,
                value: value@,
                expected: expected@,
            },
            DecodingError::InvalidFloat { field, value, error } => Fault::InvalidFloat {
                field: field@,
                value: value@,
                error: *error,
            },
            DecodingError::InvalidInt { field, value, error } => Fault::InvalidInt {
                field: field@,
                value: value@,
                error: *error,
            },
        }
    }
}

/// The result of decoding a field, with the error as its view.
pub open spec fn outcome(r: Result<u64, DecodingError>) -> Result<u64, Fault> {
    match r {
        Ok(n) => Ok(n),
        Err(e) => Err(e@),
    }
}

/// The units in which sizes and speeds are given. Each is 1024 times the
/// one before it.
#[derive(Clone, Copy, Debug, PartialEq, Eq)]
pub enum Unit {
    Byte,
    Kilo,
    Mega,
    Giga,
    Tera,
    Peta,
}

impl Unit {
    /// The number of bytes in one unit.
    pub open spec fn spec_multiplier(self) -> nat {
        match self {
            Unit::Byte => 1,
            Unit::Kilo => 1024,
            Unit::Mega => 1024 * 1024,
            Unit::Giga => 1024 * 1024 * 1024,
            Unit::Tera => 1024 * 1024 * 1024 * 1024,
            Unit::Peta => 1024 * 1024 * 1024 * 1024 * 1024,
        }
    }

    /// The number of bytes in one unit.
    pub fn multiplier(self) -> (r: u64)
        ensures
            r == self.spec_multiplier(),
    {
        match self {
            Unit::Byte => 1,
            Unit::Kilo => 1_024,
            Unit::Mega => 1_048_576,
            Unit::Giga => 1_073_741_824,
            Unit::Tera => 1_099_511_627_776,
            Unit::Peta => 1_125_899_906_842_624,
        }
    }

    /// The unit that a letter at the end of a file size names: one of
    /// `k`, `m`, `g`, `t` and `p`, small or capital.
    pub open spec fn spec_of_letter(c: char) -> Option<Unit> {
        let small = spec_ascii_lower(c);
        if small == 'k' {
            Some(Unit::Kilo)
        } else if small == 'm' {
            Some(Unit::Mega)
        } else if small == 'g' {
            Some(Unit::Giga)
        } else if small == 't' {
            Some(Unit::Tera)
        } else if small == 'p' {
            Some(Unit::Peta)
        } else {
            None
        }
    }

    /// The unit that a letter at the end of a file size names.
    #[verifier::when_used_as_spec(spec_of_letter)]
    pub fn of_letter(c: char) -> (r: Option<Unit>)
        ensures
            r == Unit::spec_of_letter(c),
    {
        let small = ascii_lower(c);
        if small == 'k' {
            Some(Unit::Kilo)
        } else if small == 'm' {
            Some(Unit::Mega)
        } else if small == 'g' {
            Some(Unit::Giga)
        } else if small == 't' {
            Some(Unit::Tera)
        } else if small == 'p' {
            Some(Unit::Peta)
        } else {
            None
        }
    }

    /// The unit that the suffix of a speed names: one of `B/s`, `kB/s`,
    /// `MB/s`, `GB/s`, `TB/s` and `PB/s`, written exactly so.
    pub open spec fn spec_of_rate(s: Seq<char>) -> Option<Unit> {
        if s == seq!['B', '/', 's'] {
            Some(Unit::Byte)
        } else if s == seq!['k', 'B', '/', 's'] {
            Some(Unit::Kilo)
        } else if s == seq!['M', 'B', '/', 's'] {
            Some(Unit::Mega)
        } else if s == seq!['G', 'B', '/', 's'] {
            Some(Unit::Giga)
        } else if s == seq!['T', 'B', '/', 's'] {
            Some(Unit::Tera)
        } else if s == seq!['P', 'B', '/', 's'] {
            Some(Unit::Peta)
        } else {
            None
        }
    }

    /// The unit that the suffix of a speed names.
    pub fn of_rate(v: &Vec<char>) -> (r: Option<Unit>)
        ensures
            r == Unit::spec_of_rate(v@),
    {
        let byte: Vec<char> = vec!['B', '/', 's'];
        let kilo: Vec<char> = vec!['k', 'B', '/', 's'];
        let mega: Vec<char> = vec!['M', 'B', '/', 's'];
        let giga: Vec<char> = vec!['G', 'B', '/', 's'];
        let tera: Vec<char> = vec!['T', 'B', '/', 's'];
        let peta: Vec<char> = vec!['P', 'B', '/', 's'];
        assert(byte@ == seq!['B', '/', 's']);
        assert(kilo@ == seq!['k', 'B', '/', 's']);
        assert(mega@ == seq!['M', 'B', '/', 's']);
        assert(giga@ == seq!['G', 'B', '/', 's']);
        assert(tera@ == seq!['T', 'B', '/', 's']);
        assert(peta@ == seq!['P', 'B', '/', 's']);
        if same_text(v, &byte) {
            Some(Unit::Byte)
        } else if same_text(v, &kilo) {
            Some(Unit::Kilo)
        } else if same_text(v, &mega) {
            Some(Unit::Mega)
        } else if same_text(v, &giga) {
            Some(Unit::Giga)
        } else if same_text(v, &tera) {
            Some(Unit::Tera)
        } else if same_text(v, &peta) {
            Some(Unit::Peta)
        } else {
            None
        }
    }
}

/// The fault of a file size that has not its shape.
pub open spec fn filesize_format_fault(text: Seq<char>) -> Fault {
    Fault::InvalidFormat { field: FILESIZE_FIELD@, value: text, expected: FILESIZE_FORMAT@ }
}

/// The number in a file size and the unit that it is given in, where the
/// text has the shape of a file size.
///
/// A file size stands in square brackets. Its last character is a digit,
/// and then all of it is the number, in bytes; or it is the letter of a
/// unit, and then what stands before the letter is the number. White
/// space around the number does not count.
pub open spec fn filesize_parts(text: Seq<char>) -> Option<(Seq<char>, Unit)> {
    if text.len() >= 2 && text[0] == '[' && text.last() == ']' {
        let inner = text.subrange(1, text.len() - 1);
        if inner.len() == 0 {
            None
        } else {
            match Unit::spec_of_letter(inner.last()) {
                Some(unit) => Some((spec_trim(inner.drop_last()), unit)),
                None => if spec_is_digit(inner.last()) {
                    Some((spec_trim(inner), Unit::Byte))
                } else {
                    None
                },
            }
        }
    } else {
        None
    }
}

/// What a file size decodes to: the number of bytes, which is the
/// number in the text times its unit, cut off to a whole number.
pub open spec fn spec_decode_filesize(text: Seq<char>) -> Result<u64, Fault> {
    match filesize_parts(text) {
        None => Err(filesize_format_fault(text)),
        Some((number, unit)) => match spec_scale(number, unit.spec_multiplier()) {
            Ok(n) => Ok(n),
            Err(error) => Err(Fault::InvalidFloat { field: FILESIZE_FIELD@, value: text, error }),
        },
    }
}

/// Decodes a file size such as `[1.2M]` into a number of bytes.
///
/// The error is `InvalidFormat` where a bracket is missing or the last
/// character between the brackets is neither a digit nor the letter of a
/// unit, and `InvalidFloat` where what stands before the unit is no
/// number. Either way it holds the text as it came.
pub fn decode_filesize(value: String) -> (r: Result<u64, DecodingError>)
    ensures
        outcome(r) == spec_decode_filesize(value@),
{
    let chars = chars_of(value.as_str());
    let n = chars.len();
    if n < 2 || chars[0] != '[' || chars[n - 1] != ']' {
        return Err(
            DecodingError::InvalidFormat {
                field: FILESIZE_FIELD,
                value,
                expected: FILESIZE_FORMAT,
            },
        );
    }
    let inner = slice(&chars, 1, n - 1);
    if inner.len() == 0 {
        return Err(
            DecodingError::InvalidFormat {
                field: FILESIZE_FIELD,
                value,
                expected: FILESIZE_FORMAT,
            },
        );
    }
    let last = inner[inner.len() - 1];
    let (written, unit) = match Unit::of_letter(last) {
        Some(unit) => {
            let front = slice(&inner, 0, inner.len() - 1);
            assert(front@ == inner@.drop_last());
            (front, unit)
        },
        None => {
            if is_digit(last) {
                (inner, Unit::Byte)
            } else {
                return Err(
                    DecodingError::InvalidFormat {
                        field: FILESIZE_FIELD,
                        value,
                        expected: FILESIZE_FORMAT,
                    },
                );
            }
        },
    };
    let number = trim(&written);
    match scale(&number, unit.multiplier()) {
        Ok(n) => Ok(n),
        Err(error) => Err(DecodingError::InvalidFloat { field: FILESIZE_FIELD, value, error }),
    }
}

/// What a number of downloads decodes to: the whole number before the
/// `x` that ends the text.
pub open spec fn spec_decode_downloads(text: Seq<char>) -> Result<u64, Fault> {
    if text.len() > 0 && text.last() == 'x' {
        match spec_parse(text.drop_last()) {
            Ok(n) => Ok(n),
            Err(error) => Err(Fault::InvalidInt { field: GETS_FIELD@, value: text, error }),
        }
    } else {
        Err(Fault::InvalidFormat { field: GETS_FIELD@, value: text, expected: GETS_FORMAT@ })
    }
}

/// Decodes a number of downloads such as `42x`.
///
/// The error is `InvalidFormat` where the text does not end with `x`, and
/// `InvalidInt` where what stands before the `x` is no whole number that
/// fits in 64 bits.
pub fn decode_downloads(value: String) -> (r: Result<u64, DecodingError>)
    ensures
        outcome(r) == spec_decode_downloads(value@),
{
    let chars = chars_of(value.as_str());
    let n = chars.len();
    if n == 0 || chars[n - 1] != 'x' {
        return Err(
            DecodingError::InvalidFormat { field: GETS_FIELD, value, expected: GETS_FORMAT },
        );
    }
    let digits = slice(&chars, 0, n - 1);
    assert(digits@ == value@.drop_last());
    match parse(&digits) {
        Ok(n) => Ok(n),
        Err(error) => Err(DecodingError::InvalidInt { field: GETS_FIELD, value, error }),
    }
}

/// What a speed decodes to: the number of bytes in a second.
///
/// The number is the longest run of digits and full stops that the text
/// begins with. What follows that run is the unit.
pub open spec fn spec_decode_speed(text: Seq<char>) -> Result<u64, Fault> {
    let end = run_end(text, 0, CharClass::Numeric);
    match Unit::spec_of_rate(text.skip(end)) {
        None => Err(
            Fault::InvalidFormat { field: SPEED_FIELD@, value: text, expected: SPEED_FORMAT@ },
        ),
        Some(unit) => match spec_scale(text.take(end), unit.spec_multiplier()) {
            Ok(n) => Ok(n),
            Err(error) => Err(Fault::InvalidFloat { field: SPEED_FIELD@, value: text, error }),
        },
    }
}

/// Decodes a speed such as `123.4kB/s` into bytes in a second.
///
/// The error is `InvalidFormat` where the run of digits and full stops
/// at the beginning is not followed by the suffix of a unit and nothing
/// else, and `InvalidFloat` where that run is no number.
pub fn decode_speed(value: String) -> (r: Result<u64, DecodingError>)
    ensures
        outcome(r) == spec_decode_speed(value@),
{
    let chars = chars_of(value.as_str());
    let end = scan_run(&chars, 0, CharClass::Numeric);
    let number = slice(&chars, 0, end);
    let suffix = slice(&chars, end, chars.len());
    let unit = match Unit::of_rate(&suffix) {
        Some(unit) => unit,
        None => {
            return Err(
                DecodingError::InvalidFormat {
                    field: SPEED_FIELD,
                    value,
                    expected: SPEED_FORMAT,
                },
            );
        },
    };
    match scale(&number, unit.multiplier()) {
        Ok(n) => Ok(n),
        Err(error) => Err(DecodingError::InvalidFloat { field: SPEED_FIELD, value, error }),
    }
}

/// What a pack number decodes to: the whole number behind the `#` that
/// the text begins with.
pub open spec fn spec_decode_packnum(text: Seq<char>) -> Result<u64, Fault> {
    if text.len() > 0 && text[0] == '#' {
        match spec_parse(text.skip(1)) {
            Ok(n) => Ok(n),
            Err(error) => Err(Fault::InvalidInt { field: PACKNUM_FIELD@, value: text, error }),
        }
    } else {
        Err(
            Fault::InvalidFormat { field: PACKNUM_FIELD@, value: text, expected: PACKNUM_FORMAT@ },
        )
    }
}

/// Decodes a pack number such as `#42`.
///
/// The error is `InvalidFormat` where the text does not begin with `#`,
/// and `InvalidInt` where what follows the `#` is no whole number that
/// fits in 64 bits.
pub fn decode_packnum(value: String) -> (r: Result<u64, DecodingError>)
    ensures
        outcome(r) == spec_decode_packnum(value@),
{
    let chars = chars_of(value.as_str());
    let n = chars.len();
    if n == 0 || chars[0] != '#' {
        return Err(
            DecodingError::InvalidFormat {
                field: PACKNUM_FIELD,
                value,
                expected: PACKNUM_FORMAT,
            },
        );
    }
    let digits = slice(&chars, 1, n);
    match parse(&digits) {
        Ok(n) => Ok(n),
        Err(error) => Err(DecodingError::InvalidInt { field: PACKNUM_FIELD, value, error }),
    }
}

/// One pack of a listing, with every field decoded.
#[derive(Clone, Debug, PartialEq, Eq, PartialOrd, Ord)]
pub struct Entry {
    /// The name of the file.
    pub filename: String,
    /// The size of the file in bytes.
    pub filesize: u64,
    /// How often the pack has been downloaded.
    pub downloads: u64,
    /// The number by which the pack is requested from its bot.
    pub packnum: u64,
    /// The channel in which the bot sits.
    pub channel: String,
    /// The network of that channel.
    pub network: String,
    /// The name of the bot that offers the file.
    pub bot_name: String,
    /// The speed that the bot reports, in bytes in a second.
    pub bot_speed: u64,
}

/// The view of an [`Entry`]: every text as the sequence of its
/// characters.
pub struct EntryView {
    pub filename: Seq<char>,
    pub filesize: u64,
    pub downloads: u64,
    pub packnum: u64,
    pub channel: Seq<char>,
    pub network: Seq<char>,
    pub bot_name: Seq<char>,
    pub bot_speed: u64,
}

impl View for Entry {
    type V = EntryView;

    open spec fn view(&self) -> EntryView {
        EntryView {
            filename: self.filename@,
            filesize: self.filesize,
            downloads: self.downloads,
            packnum: self.packnum,
            channel: self.channel@,
            network: self.network@,
            bot_name: self.bot_name@,
            bot_speed: self.bot_speed,
        }
    }
}

impl DeepView for Entry {
    type V = EntryView;

    open spec fn deep_view(&self) -> EntryView {
        self@
    }
}

/// One row of a response: the eight fields of a pack as the service
/// sends them.
#[derive(Clone, Debug, PartialEq, Eq)]
pub struct Record {
    pub filename: String,
    pub filesize: String,
    pub downloads: String,
    pub packnum: String,
    pub channel: String,
    pub network: String,
    pub bot_name: String,
    pub bot_speed: String,
}

/// The view of a [`Record`].
pub struct RecordView {
    pub filename: Seq<char>,
    pub filesize: Seq<char>,
    pub downloads: Seq<char>,
    pub packnum: Seq<char>,
    pub channel: Seq<char>,
    pub network: Seq<char>,
    pub bot_name: Seq<char>,
    pub bot_speed: Seq<char>,
}

impl View for Record {
    type V = RecordView;

    open spec fn view(&self) -> RecordView {
        RecordView {
            filename: self.filename@,
            filesize: self.filesize@,
            downloads: self.downloads@,
            packnum: self.packnum@,
            channel: self.channel@,
            network: self.network@,
            bot_name: self.bot_name@,
            bot_speed: self.bot_speed@,
        }
    }
}

impl DeepView for Record {
    type V = RecordView;

    open spec fn deep_view(&self) -> RecordView {
        self@
    }
}

/// What a record decodes to.
///
/// The size, the downloads, the pack number and the speed are decoded,
/// in this order, and the first of them that fails gives the fault of
/// the record. The other four fields are taken as they are.
pub open spec fn spec_try_decode(record: RecordView) -> Result<EntryView, Fault> {
    match spec_decode_filesize(record.filesize) {
        Err(fault) => Err(fault),
        Ok(filesize) => match spec_decode_downloads(record.downloads) {
            Err(fault) => Err(fault),
            Ok(downloads) => match spec_decode_packnum(record.packnum) {
                Err(fault) => Err(fault),
                Ok(packnum) => match spec_decode_speed(record.bot_speed) {
                    Err(fault) => Err(fault),
                    Ok(bot_speed) => Ok(
                        EntryView {
                            filename: record.filename,
                            filesize,
                            downloads,
                            packnum,
                            channel: record.channel,
                            network: record.network,
                            bot_name: record.bot_name,
                            bot_speed,
                        },
                    ),
                },
            },
        },
    }
}

/// The result of decoding a record, entry and error as their views.
pub open spec fn entry_outcome(r: Result<Entry, DecodingError>) -> Result<EntryView, Fault> {
    match r {
        Ok(entry) => Ok(entry@),
        Err(e) => Err(e@),
    }
}

impl Entry {
    /// Decodes the eight fields of a record into an entry. Fails with
    /// the fault of the first field that does not decode.
    pub fn try_decode(
        fname: String,
        fsize: String,
        downloads: String,
        packnum: String,
        channel: String,
        network: String,
        bot_name: String,
        bot_speed: String,
    ) -> (r: Result<Entry, DecodingError>)
        ensures
            entry_outcome(r) == spec_try_decode(
                RecordView {
                    filename: fname@,
                    filesize: fsize@,
                    downloads: downloads@,
                    packnum: packnum@,
                    channel: channel@,
                    network: network@,
                    bot_name: bot_name@,
                    bot_speed: bot_speed@,
                },
            ),
    {
        let filesize = match decode_filesize(fsize) {
            Ok(n) => n,
            Err(e) => {
                return Err(e);
            },
        };
        let downloads = match decode_downloads(downloads) {
            Ok(n) => n,
            Err(e) => {
                return Err(e);
            },
        };
        let packnum = match decode_packnum(packnum) {
            Ok(n) => n,
            Err(e) => {
                return Err(e);
            },
        };
        let bot_speed = match decode_speed(bot_speed) {
            Ok(n) => n,
            Err(e) => {
                return Err(e);
            },
        };
        Ok(
            Entry {
                filename: fname,
                filesize,
                downloads,
                packnum,
                channel,
                network,
                bot_name,
                bot_speed,
            },
        )
    }
}

/// A response of the service: one column of text for each field, the
/// rows in the order of the listing.
#[derive(Clone, Debug, PartialEq, Eq)]
pub struct Response {
    /// The speeds of the bots.
    pub botrec: Vec<String>,
    /// The networks.
    pub network: Vec<String>,
    /// The names of the bots.
    pub bot: Vec<String>,
    /// The channels.
    pub channel: Vec<String>,
    /// The pack numbers.
    pub packnum: Vec<String>,
    /// The numbers of downloads.
    pub gets: Vec<String>,
    /// The file sizes.
    pub fsize: Vec<String>,
    /// The file names.
    pub fname: Vec<String>,
}

/// The view of a [`Response`]: each column as the sequence of its
/// texts.
pub struct ResponseView {
    pub botrec: Seq<Seq<char>>,
    pub network: Seq<Seq<char>>,
    pub bot: Seq<Seq<char>>,
    pub channel: Seq<Seq<char>>,
    pub packnum: Seq<Seq<char>>,
    pub gets: Seq<Seq<char>>,
    pub fsize: Seq<Seq<char>>,
    pub fname: Seq<Seq<char>>,
}

impl View for Response {
    type V = ResponseView;

    open spec fn view(&self) -> ResponseView {
        ResponseView {
            botrec: self.botrec.deep_view(),
            network: self.network.deep_view(),
            bot: self.bot.deep_view(),
            channel: self.channel.deep_view(),
            packnum: self.packnum.deep_view(),
            gets: self.gets.deep_view(),
            fsize: self.fsize.deep_view(),
            fname: self.fname.deep_view(),
        }
    }
}

/// The smaller of two lengths.
pub open spec fn shorter(a: nat, b: nat) -> nat {
    if a <= b {
        a
    } else {
        b
    }
}

/// The view of a [`RecordFault`]: the row of a record that was left out,
/// and its fault.
pub struct RecordFaultView {
    pub index: nat,
    pub fault: Fault,
}

impl ResponseView {
    /// The number of records: the length of the shortest column.
    pub open spec fn len(self) -> nat {
        shorter(
            shorter(
                shorter(self.fname.len(), self.fsize.len()),
                shorter(self.gets.len(), self.packnum.len()),
            ),
            shorter(
                shorter(self.channel.len(), self.network.len()),
                shorter(self.bot.len(), self.botrec.len()),
            ),
        )
    }

    /// The record in row `index`.
    pub open spec fn record(self, index: int) -> RecordView
        recommends
            0 <= index < self.len(),
    {
        RecordView {
            filename: self.fname[index],
            filesize: self.fsize[index],
            downloads: self.gets[index],
            packnum: self.packnum[index],
            channel: self.channel[index],
            network: self.network[index],
            bot_name: self.bot[index],
            bot_speed: self.botrec[index],
        }
    }

    /// The entries that the first `rows` records decode to, in the order
    /// of their rows. A record that does not decode adds none.
    pub open spec fn entries(self, rows: nat) -> Seq<EntryView>
        decreases rows,
    {
        if rows == 0 {
            Seq::empty()
        } else {
            let before = self.entries((rows - 1) as nat);
            match spec_try_decode(self.record(rows - 1)) {
                Ok(entry) => before.push(entry),
                Err(_) => before,
            }
        }
    }

    /// The records among the first `rows` that do not decode, each with
    /// its fault, in the order of their rows.
    pub open spec fn faults(self, rows: nat) -> Seq<RecordFaultView>
        decreases rows,
    {
        if rows == 0 {
            Seq::empty()
        } else {
            let before = self.faults((rows - 1) as nat);
            match spec_try_decode(self.record(rows - 1)) {
                Ok(_) => before,
                Err(fault) => before.push(RecordFaultView { index: (rows - 1) as nat, fault }),
            }
        }
    }
}

/// A record that was left out of the entries of a response.
#[derive(Clone, Debug, PartialEq)]
pub struct RecordFault {
    /// The row of the record, counted from 0.
    pub index: usize,
    /// Why the record does not decode.
    pub error: DecodingError,
}

impl View for RecordFault {
    type V = RecordFaultView;

    open spec fn view(&self) -> RecordFaultView {
        RecordFaultView { index: self.index as nat, fault: self.error@ }
    }
}

impl DeepView for RecordFault {
    type V = RecordFaultView;

    open spec fn deep_view(&self) -> RecordFaultView {
        self@
    }
}

/// What a response decodes to: the entries, and the records that were
/// left out.
#[derive(Clone, Debug, PartialEq)]
pub struct Decoded {
    /// The entries of the records that decode, in the order of the rows.
    pub entries: Vec<Entry>,
    /// The records that do not decode, in the order of the rows.
    pub faults: Vec<RecordFault>,
}

impl Response {
    /// The number of records in the response: the length of its shortest
    /// column.
    pub fn len(&self) -> (n: usize)
        ensures
            n == self@.len(),
    {
        let mut n = self.fname.len();
        if self.fsize.len() < n {
            n = self.fsize.len();
        }
        if self.gets.len() < n {
            n = self.gets.len();
        }
        if self.packnum.len() < n {
            n = self.packnum.len();
        }
        if self.channel.len() < n {
            n = self.channel.len();
        }
        if self.network.len() < n {
            n = self.network.len();
        }
        if self.bot.len() < n {
            n = self.bot.len();
        }
        if self.botrec.len() < n {
            n = self.botrec.len();
        }
        n
    }

    /// The record in row `index`: the entry of each column in that row.
    pub fn record(&self, index: usize) -> (r: Record)
        requires
            index < self@.len(),
        ensures
            r@ == self@.record(index as int),
    {
        Record {
            filename: self.fname[index].clone(),
            filesize: self.fsize[index].clone(),
            downloads: self.gets[index].clone(),
            packnum: self.packnum[index].clone(),
            channel: self.channel[index].clone(),
            network: self.network[index].clone(),
            bot_name: self.bot[index].clone(),
            bot_speed: self.botrec[index].clone(),
        }
    }

    /// The records of the response, row by row: as many as the shortest
    /// column has entries, each made of the entries of the eight columns
    /// in its row.
    pub fn records(&self) -> (r: Vec<Record>)
        ensures
            r.len() == self@.len(),
            forall|i: int| 0 <= i < r.len() ==> #[trigger] r.deep_view()[i] == self@.record(i),
    {
        let n = self.len();
        let mut records: Vec<Record> = Vec::new();
        let mut i: usize = 0;
        while i < n
            invariant
                i <= n,
                n == self@.len(),
                records.len() == i,
                forall|j: int| 0 <= j < i ==> #[trigger] records.deep_view()[j] == self@.record(j),
            decreases n - i,
        {
            let ghost before = records.deep_view();
            let record = self.record(i);
            records.push(record);
            assert(records.deep_view() == before.push(record@));
            i += 1;
        }
        records
    }

    /// Decodes every record of the response. The entries come in the
    /// order of the rows; a record that does not decode is left out of
    /// them and listed with its row and its fault.
    pub fn decode(self) -> (r: Decoded)
        ensures
            r.entries.deep_view() == self@.entries(self@.len()),
            r.faults.deep_view() == self@.faults(self@.len()),
    {
        let n = self.len();
        let mut entries: Vec<Entry> = Vec::new();
        let mut faults: Vec<RecordFault> = Vec::new();
        let mut i: usize = 0;
        assert(entries.deep_view() == self@.entries(0));
        assert(faults.deep_view() == self@.faults(0));
        while i < n
            invariant
                i <= n,
                n == self@.len(),
                entries.deep_view() == self@.entries(i as nat),
                faults.deep_view() == self@.faults(i as nat),
            decreases n - i,
        {
            let record = self.record(i);
            let ghost entries_before = entries.deep_view();
            let ghost faults_before = faults.deep_view();
            match Entry::try_decode(
                record.filename,
                record.filesize,
                record.downloads,
                record.packnum,
                record.channel,
                record.network,
                record.bot_name,
                record.bot_speed,
            ) {
                Ok(entry) => {
                    entries.push(entry);
                    assert(entries.deep_view() == entries_before.push(entry@));
                },
                Err(error) => {
                    let fault = RecordFault { index: i, error };
                    faults.push(fault);
                    assert(faults.deep_view() == faults_before.push(fault@));
                },
            }
            i += 1;
        }
        Decoded { entries, faults }
    }

    /// The entries of the records that decode, in the order of the rows.
    /// A record with a field that does not decode is left out.
    pub fn into(self) -> (entries: Vec<Entry>)
        ensures
            entries.deep_view() == self@.entries(self@.len()),
    {
        self.decode().entries
    }
}

/// The letter of a unit as text, and no text where there is no letter.
pub open spec fn letter_text(letter: Option<char>) -> Seq<char> {
    match letter {
        Some(c) => seq![c],
        None => Seq::empty(),
    }
}

/// The unit that a letter names; bytes where there is no letter.
pub open spec fn unit_of(letter: Option<char>) -> Unit {
    match letter {
        Some(c) => match Unit::spec_of_letter(c) {
            Some(unit) => unit,
            None => Unit::Byte,
        },
        None => Unit::Byte,
    }
}

/// A file size that is written as a decimal number in brackets, with or
/// without white space before the number and with or without the letter
/// of a unit behind it, decodes to the number times the unit, cut off to
/// a whole number. The number is its digits, taken as one whole number,
/// divided by ten for each digit behind the point. A product above
/// `u64::MAX` gives `u64::MAX`.
pub proof fn lemma_filesize_of_decimal(
    padding: Seq<char>,
    whole: Seq<char>,
    fraction: Seq<char>,
    letter: Option<char>,
)
    requires
        all_in(padding, CharClass::Space),
        whole.len() > 0,
        all_digits(whole),
        all_digits(fraction),
        letter matches Some(c) ==> Unit::spec_of_letter(c) is Some,
    ensures
        spec_decode_filesize(
            seq!['['] + padding + decimal_text(whole, fraction) + letter_text(letter) + seq![']'],
        ) == Ok::<u64, Fault>(
            saturated(
                (digits_value(whole + fraction) * unit_of(letter).spec_multiplier()) / pow10(
                    fraction.len(),
                ),
            ),
        ),
{
    let number = decimal_text(whole, fraction);
    let text = seq!['['] + padding + number + letter_text(letter) + seq![']'];
    let inner = padding + number + letter_text(letter);
    let none = Seq::<char>::empty();
    assert(text[0] == '[');
    assert(text.last() == ']');
    assert(text.subrange(1, text.len() - 1) == inner);
    assert(number.len() > 0);
    assert(number[0] == whole[0]);
    assert(spec_is_digit(whole[0]));
    if fraction.len() == 0 {
        assert(number.last() == whole.last());
        assert(spec_is_digit(whole.last()));
    } else {
        assert(number.last() == fraction.last());
        assert(spec_is_digit(fraction.last()));
    }
    assert(all_in(none, CharClass::Space));
    lemma_trim_padded(padding, number, none);
    assert(padding + number + none == padding + number);
    match letter {
        Some(c) => {
            assert(inner.last() == c);
            assert(inner.drop_last() == padding + number);
        },
        None => {
            assert(inner == padding + number);
            assert(inner.last() == number.last());
            assert(Unit::spec_of_letter(inner.last()) is None);
        },
    }
    assert(filesize_parts(text) == Some((number, unit_of(letter))));
    lemma_scale_of_decimal(whole, fraction, unit_of(letter).spec_multiplier());
}

/// A file size whose last character before the closing bracket is
/// neither a digit nor the letter of a unit has not the shape of a file
/// size.
pub proof fn lemma_filesize_unknown_unit(text: Seq<char>)
    requires
        text.len() >= 3,
        !spec_is_digit(text[text.len() - 2]),
        Unit::spec_of_letter(text[text.len() - 2]) is None,
    ensures
        spec_decode_filesize(text) == Err::<u64, Fault>(filesize_format_fault(text)),
{
    if text[0] == '[' && text.last() == ']' {
        let inner = text.subrange(1, text.len() - 1);
        assert(inner.last() == text[text.len() - 2]);
    }
}

/// A text that does not begin with an opening bracket, or does not end
/// with a closing one, has not the shape of a file size.
pub proof fn lemma_filesize_without_brackets(text: Seq<char>)
    requires
        text.len() == 0 || text[0] != '[' || text.last() != ']',
    ensures
        spec_decode_filesize(text) == Err::<u64, Fault>(filesize_format_fault(text)),
{
}

/// The numeral of a number that fits in 64 bits, followed by `x`,
/// decodes to that number of downloads.
pub proof fn lemma_downloads_of_number(n: u64)
    ensures
        spec_decode_downloads(numeral(n as nat).push('x')) == Ok::<u64, Fault>(n),
{
    let digits = numeral(n as nat);
    lemma_numeral(n as nat);
    lemma_parse_of_digits(digits);
    assert(digits.push('x').drop_last() == digits);
}

/// A text that does not end with `x` has not the shape of a number of
/// downloads.
pub proof fn lemma_downloads_without_suffix(text: Seq<char>)
    requires
        text.len() == 0 || text.last() != 'x',
    ensures
        spec_decode_downloads(text) == Err::<u64, Fault>(
            Fault::InvalidFormat { field: GETS_FIELD@, value: text, expected: GETS_FORMAT@ },
        ),
{
}

/// The numeral of a number that fits in 64 bits, behind `#`, decodes to
/// that pack number.
pub proof fn lemma_packnum_of_number(n: u64)
    ensures
        spec_decode_packnum(seq!['#'] + numeral(n as nat)) == Ok::<u64, Fault>(n),
{
    let digits = numeral(n as nat);
    lemma_numeral(n as nat);
    lemma_parse_of_digits(digits);
    assert((seq!['#'] + digits).skip(1) == digits);
    assert((seq!['#'] + digits)[0] == '#');
}

/// A text that does not begin with `#` has not the shape of a pack
/// number.
pub proof fn lemma_packnum_without_prefix(text: Seq<char>)
    requires
        text.len() == 0 || text[0] != '#',
    ensures
        spec_decode_packnum(text) == Err::<u64, Fault>(
            Fault::InvalidFormat {
                field: PACKNUM_FIELD@,
                value: text,
                expected: PACKNUM_FORMAT@,
            },
        ),
{
}

impl Unit {
    /// The suffix that names the unit in a speed.
    pub open spec fn rate_text(self) -> Seq<char> {
        match self {
            Unit::Byte => seq!['B', '/', 's'],
            Unit::Kilo => seq!['k', 'B', '/', 's'],
            Unit::Mega => seq!['M', 'B', '/', 's'],
            Unit::Giga => seq!['G', 'B', '/', 's'],
            Unit::Tera => seq!['T', 'B', '/', 's'],
            Unit::Peta => seq!['P', 'B', '/', 's'],
        }
    }

    /// Each unit is told by its suffix, and no suffix begins with a
    /// digit or a full stop.
    pub proof fn lemma_rate_text(self)
        ensures
            Unit::spec_of_rate(self.rate_text()) == Some(self),
            self.rate_text().len() > 0,
            !CharClass::Numeric.spec_holds(self.rate_text()[0]),
    {
        let s = self.rate_text();
        assert(seq!['B', '/', 's'].len() == 3);
        assert(seq!['k', 'B', '/', 's'][0] == 'k');
        assert(seq!['M', 'B', '/', 's'][0] == 'M');
        assert(seq!['G', 'B', '/', 's'][0] == 'G');
        assert(seq!['T', 'B', '/', 's'][0] == 'T');
        assert(seq!['P', 'B', '/', 's'][0] == 'P');
        assert(s.len() == 3 || s.len() == 4);
        assert(s.len() == 4 ==> s[0] != 'B');
    }
}

/// A speed that is written as a decimal number and the suffix of a unit
/// decodes to the number times the unit, cut off to a whole number. A
/// product above `u64::MAX` gives `u64::MAX`.
pub proof fn lemma_speed_of_decimal(whole: Seq<char>, fraction: Seq<char>, unit: Unit)
    requires
        whole.len() > 0,
        all_digits(whole),
        all_digits(fraction),
    ensures
        spec_decode_speed(decimal_text(whole, fraction) + unit.rate_text()) == Ok::<u64, Fault>(
            saturated(
                (digits_value(whole + fraction) * unit.spec_multiplier()) / pow10(fraction.len()),
            ),
        ),
{
    let number = decimal_text(whole, fraction);
    let suffix = unit.rate_text();
    let text = number + suffix;
    let none = Seq::<char>::empty();
    unit.lemma_rate_text();
    assert forall|i: int| 0 <= i < number.len() implies CharClass::Numeric.spec_holds(
        #[trigger] number[i],
    ) by {
        if i < whole.len() {
            assert(number[i] == whole[i]);
            assert(spec_is_digit(whole[i]));
        } else if i == whole.len() {
            assert(number[i] == '.');
        } else {
            assert(number[i] == fraction[i - whole.len() - 1]);
            assert(spec_is_digit(fraction[i - whole.len() - 1]));
        }
    }
    assert(text == none + number + suffix);
    lemma_run_end_within(none, number, suffix, CharClass::Numeric);
    assert(text.take(number.len() as int) == number);
    assert(text.skip(number.len() as int) == suffix);
    lemma_scale_of_decimal(whole, fraction, unit.spec_multiplier());
}

/// A speed whose number is followed by anything but the suffix of a
/// unit has not the shape of a speed.
pub proof fn lemma_speed_unknown_unit(number: Seq<char>, suffix: Seq<char>)
    requires
        all_in(number, CharClass::Numeric),
        suffix.len() > 0 ==> !CharClass::Numeric.spec_holds(suffix[0]),
        Unit::spec_of_rate(suffix) is None,
    ensures
        spec_decode_speed(number + suffix) == Err::<u64, Fault>(
            Fault::InvalidFormat {
                field: SPEED_FIELD@,
                value: number + suffix,
                expected: SPEED_FORMAT@,
            },
        ),
{
    let none = Seq::<char>::empty();
    let text = number + suffix;
    assert(text == none + number + suffix);
    lemma_run_end_within(none, number, suffix, CharClass::Numeric);
    assert(text.skip(number.len() as int) == suffix);
}

impl ResponseView {
    /// Whether the record in row `index` decodes.
    pub open spec fn decodes(self, index: int) -> bool {
        spec_try_decode(self.record(index)) is Ok
    }

    /// The entry that the record in row `index` decodes to.
    pub open spec fn entry(self, index: int) -> EntryView
        recommends
            self.decodes(index),
    {
        spec_try_decode(self.record(index))->Ok_0
    }

    /// The fault of the record in row `index`.
    pub open spec fn fault(self, index: int) -> RecordFaultView
        recommends
            !self.decodes(index),
    {
        RecordFaultView { index: index as nat, fault: spec_try_decode(self.record(index))->Err_0 }
    }

    /// The rows among the first `rows` whose records decode, in
    /// ascending order.
    pub open spec fn kept(self, rows: nat) -> Seq<int>
        decreases rows,
    {
        if rows == 0 {
            Seq::empty()
        } else {
            let before = self.kept((rows - 1) as nat);
            if self.decodes(rows - 1) {
                before.push(rows - 1)
            } else {
                before
            }
        }
    }

    /// The entries are the decoded records of the rows that decode, each
    /// such row once and in the order of the rows.
    pub proof fn lemma_entries_keep_order(self, rows: nat)
        ensures
            self.entries(rows).len() == self.kept(rows).len(),
            forall|j: int|
                0 <= j < self.kept(rows).len() ==> {
                    let row = #[trigger] self.kept(rows)[j];
                    &&& 0 <= row < rows
                    &&& self.decodes(row)
                    &&& self.entries(rows)[j] == self.entry(row)
                },
            forall|j: int, k: int|
                0 <= j < k < self.kept(rows).len() ==> self.kept(rows)[j] < self.kept(rows)[k],
            forall|row: int|
                0 <= row < rows && self.decodes(row) ==> self.kept(rows).contains(row),
        decreases rows,
    {
        if rows > 0 {
            let before = (rows - 1) as nat;
            self.lemma_entries_keep_order(before);
            let kept = self.kept(rows);
            if self.decodes(rows - 1) {
                assert(kept == self.kept(before).push(rows - 1));
                assert(kept[kept.len() - 1] == rows - 1);
                assert forall|row: int| 0 <= row < rows && self.decodes(row) implies kept.contains(
                    row,
                ) by {
                    if row < rows - 1 {
                        let at = choose|at: int|
                            0 <= at < self.kept(before).len() && self.kept(before)[at] == row;
                        assert(kept[at] == row);
                    }
                }
            } else {
                assert(kept == self.kept(before));
            }
        }
    }

    /// Every record is either decoded or reported.
    pub proof fn lemma_every_record_counted(self, rows: nat)
        ensures
            self.entries(rows).len() + self.faults(rows).len() == rows,
        decreases rows,
    {
        if rows > 0 {
            self.lemma_every_record_counted((rows - 1) as nat);
        }
    }

    /// Where every record decodes, the entries are the decoded records,
    /// row by row, and nothing is reported.
    pub proof fn lemma_all_decode(self, rows: nat)
        requires
            forall|i: int| 0 <= i < rows ==> #[trigger] self.decodes(i),
        ensures
            self.entries(rows).len() == rows,
            forall|i: int| 0 <= i < rows ==> #[trigger] self.entries(rows)[i] == self.entry(i),
            self.faults(rows).len() == 0,
        decreases rows,
    {
        if rows > 0 {
            self.lemma_all_decode((rows - 1) as nat);
            assert(self.decodes(rows - 1));
        }
    }

    /// Where one record among `rows` does not decode, and all the others
    /// do, the entries are the decoded records without that one, in the
    /// order of their rows, and that one record is what is reported.
    pub proof fn lemma_one_fault(self, rows: nat, bad: int)
        requires
            0 <= bad < rows,
            !self.decodes(bad),
            forall|i: int| 0 <= i < rows && i != bad ==> #[trigger] self.decodes(i),
        ensures
            self.entries(rows).len() == rows - 1,
            forall|i: int| 0 <= i < bad ==> #[trigger] self.entries(rows)[i] == self.entry(i),
            forall|i: int|
                bad <= i < rows - 1 ==> #[trigger] self.entries(rows)[i] == self.entry(i + 1),
            self.faults(rows) == seq![self.fault(bad)],
        decreases rows,
    {
        let before = (rows - 1) as nat;
        if bad == rows - 1 {
            self.lemma_all_decode(before);
            assert(self.faults(before) == Seq::<RecordFaultView>::empty());
            assert(self.faults(rows) == self.faults(before).push(self.fault(bad)));
        } else {
            self.lemma_one_fault(before, bad);
            assert(self.decodes(rows - 1));
            assert(self.entries(rows) == self.entries(before).push(self.entry(rows - 1)));
        }
    }
}

} // verus!
