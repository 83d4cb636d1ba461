use vstd::prelude::*;

use crate::object_id::{hex_bytes, is_hex_lower, ObjectId, ID_BYTES};

verus! {

/// Where the name starts: after two identifiers of forty digits and their
/// separating spaces.
pub const NAME_START: usize = 82;

/// Why a reference log could not be read.
#[derive(Clone, Copy, Debug, PartialEq, Eq, Structural)]
pub enum ReflogError {
    /// A log line does not follow `<old> <new> <name> <<email>> <secs> <+|-hhmm>\t<message>`.
    MalformedReflogLine,
}

/// One logged transition of a reference.
#[derive(Clone, Debug, PartialEq, Eq)]
pub struct ReflogRecord {
    pub old_id: ObjectId,
    pub new_id: ObjectId,
    pub name: String,
    pub email: String,
    /// Seconds since the epoch.
    pub timestamp: i64,
    /// Offset from UTC in minutes.
    pub offset_minutes: i32,
    pub message: String,
}

/// A `ReflogRecord` as plain values.
pub struct RecordView {
    pub old_id: Seq<u8>,
    pub new_id: Seq<u8>,
    pub name: Seq<char>,
    pub email: Seq<char>,
    pub timestamp: int,
    pub offset_minutes: int,
    pub message: Seq<char>,
}

impl View for ReflogRecord {
    type V = RecordView;

    open spec fn view(&self) -> RecordView {
        RecordView {
            old_id: self.old_id.bytes@,
            new_id: self.new_id.bytes@,
            name: self.name@,
            email: self.email@,
            timestamp: self.timestamp as int,
            offset_minutes: self.offset_minutes as int,
            message: self.message@,
        }
    }
}

impl ReflogRecord {
    pub open spec fn wf(&self) -> bool {
        self.old_id.wf() && self.new_id.wf()
    }
}

pub open spec fn is_digit(c: char) -> bool {
    '0' <= c && c <= '9'
}

pub open spec fn digit_value(c: char) -> int {
    (c as int) - ('0' as int)
}

/// The first position at or after `from` that holds `c`, or the length.
pub open spec fn first_index_of(s: Seq<char>, c: char, from: int) -> int
    decreases s.len() - from,
{
    if from >= s.len() {
        s.len() as int
    } else if s[from] == c {
        from
    } else {
        first_index_of(s, c, from + 1)
    }
}

/// The first position at or after `from` that holds no decimal digit, or the length.
pub open spec fn end_of_digits(s: Seq<char>, from: int) -> int
    decreases s.len() - from,
{
    if from >= s.len() {
        s.len() as int
    } else if !is_digit(s[from]) {
        from
    } else {
        end_of_digits(s, from + 1)
    }
}

/// The value of a string of decimal digits.
pub open spec fn decimal(ds: Seq<char>) -> int
    decreases ds.len(),
{
    if ds.len() == 0 {
        0
    } else {
        decimal(ds.drop_last()) * 10 + digit_value(ds.last())
    }
}

/// Position of the `<` that opens the email.
pub open spec fn email_open(s: Seq<char>) -> int {
    first_index_of(s, '<', NAME_START as int)
}

/// Position of the `>` that closes the email.
pub open spec fn email_close(s: Seq<char>) -> int {
    first_index_of(s, '>', email_open(s) + 1)
}

/// Position of the space after the seconds.
pub open spec fn seconds_end(s: Seq<char>) -> int {
    end_of_digits(s, email_close(s) + 2)
}

/// The offset `<sign>hhmm` that starts at `at`, in minutes.
pub open spec fn offset_value(s: Seq<char>, at: int) -> int {
    let m = digit_value(s[at + 1]) * 600 + digit_value(s[at + 2]) * 60 + digit_value(s[at + 3])
        * 10 + digit_value(s[at + 4]);
    if s[at] == '-' {
        -m
    } else {
        m
    }
}

/// Whether `s` is one line of a reference log:
/// `<old> <new> <name> <<email>> <secs> <+|-hhmm>\t<message>`, with both
/// identifiers of forty lowercase hexadecimal digits, a name without `<`, an
/// email without `>`, both non-empty, seconds that fit in an `i64`, and a
/// message without a line break.
pub open spec fn is_reflog_line(s: Seq<char>) -> bool {
    let lt = email_open(s);
    let gt = email_close(s);
    let sp = seconds_end(s);
    &&& s.len() > NAME_START
    &&& forall|i: int| 0 <= i < 40 ==> is_hex_lower(#[trigger] s[i])
    &&& s[40] == ' '
    &&& forall|i: int| 41 <= i < 81 ==> is_hex_lower(#[trigger] s[i])
    &&& s[81] == ' '
    &&& NAME_START + 2 <= lt < s.len()
    &&& s[lt - 1] == ' '
    &&& lt + 2 <= gt
    &&& gt + 1 < s.len()
    &&& s[gt + 1] == ' '
    &&& gt + 3 <= sp < s.len()
    &&& s[sp] == ' '
    &&& sp + 7 <= s.len()
    &&& (s[sp + 1] == '+' || s[sp + 1] == '-')
    &&& forall|i: int| sp + 2 <= i < sp + 6 ==> is_digit(#[trigger] s[i])
    &&& s[sp + 6] == '\t'
    &&& first_index_of(s, '\n', sp + 7) == s.len()
    &&& decimal(s.subrange(gt + 2, sp)) <= i64::MAX
}

/// The record that a line of the reference log stands for.
pub open spec fn reflog_record_of(s: Seq<char>) -> RecordView {
    let lt = email_open(s);
    let gt = email_close(s);
    let sp = seconds_end(s);
    RecordView {
        old_id: hex_bytes(s.subrange(0, 40)),
        new_id: hex_bytes(s.subrange(41, 81)),
        name: s.subrange(NAME_START as int, lt - 1),
        email: s.subrange(lt + 1, gt),
        timestamp: decimal(s.subrange(gt + 2, sp)),
        offset_minutes: offset_value(s, sp + 1),
        message: s.subrange(sp + 7, s.len() as int),
    }
}

/// Both identifiers of a record read from a well-formed line have the fixed
/// width of an object identifier.
pub proof fn lemma_record_ids_fixed_width(s: Seq<char>)
    requires
        is_reflog_line(s),
    ensures
        reflog_record_of(s).old_id.len() == ID_BYTES,
        reflog_record_of(s).new_id.len() == ID_BYTES,
{
}

/// A log line assembled from its fields.
pub open spec fn reflog_line_text(
    old: Seq<char>,
    new: Seq<char>,
    name: Seq<char>,
    email: Seq<char>,
    secs: Seq<char>,
    sign: char,
    offset: Seq<char>,
    message: Seq<char>,
) -> Seq<char> {
    old + seq![' '] + new + seq![' '] + name + seq![' ', '<'] + email + seq!['>', ' '] + secs + seq![
        ' ',
        sign,
    ] + offset + seq!['\t'] + message
}

/// Fields that a log line may carry: identifiers of forty lowercase
/// hexadecimal digits, a non-empty name without `<`, a non-empty email
/// without `>`, seconds that fit in an `i64`, a signed offset of four digits,
/// and a message without a line break.
pub open spec fn reflog_fields_ok(
    old: Seq<char>,
    new: Seq<char>,
    name: Seq<char>,
    email: Seq<char>,
    secs: Seq<char>,
    sign: char,
    offset: Seq<char>,
    message: Seq<char>,
) -> bool {
    &&& old.len() == 40 && forall|i: int| 0 <= i < 40 ==> is_hex_lower(#[trigger] old[i])
    &&& new.len() == 40 && forall|i: int| 0 <= i < 40 ==> is_hex_lower(#[trigger] new[i])
    &&& name.len() > 0 && forall|i: int| 0 <= i < name.len() ==> #[trigger] name[i] != '<'
    &&& email.len() > 0 && forall|i: int| 0 <= i < email.len() ==> #[trigger] email[i] != '>'
    &&& secs.len() > 0 && forall|i: int| 0 <= i < secs.len() ==> is_digit(#[trigger] secs[i])
    &&& decimal(secs) <= i64::MAX
    &&& sign == '+' || sign == '-'
    &&& offset.len() == 4 && forall|i: int| 0 <= i < 4 ==> is_digit(#[trigger] offset[i])
    &&& forall|i: int| 0 <= i < message.len() ==> #[trigger] message[i] != '\n'
}

proof fn lemma_first_index_at(s: Seq<char>, c: char, from: int, p: int)
    requires
        0 <= from <= p <= s.len(),
        forall|k: int| from <= k < p ==> #[trigger] s[k] != c,
        p < s.len() ==> s[p] == c,
    ensures
        first_index_of(s, c, from) == p,
    decreases p - from,
{
    if from < p {
        lemma_first_index_at(s, c, from + 1, p);
    }
}

proof fn lemma_end_of_digits_at(s: Seq<char>, from: int, p: int)
    requires
        0 <= from <= p < s.len(),
        forall|k: int| from <= k < p ==> is_digit(#[trigger] s[k]),
        !is_digit(s[p]),
    ensures
        end_of_digits(s, from) == p,
    decreases p - from,
{
    if from < p {
        lemma_end_of_digits_at(s, from + 1, p);
    }
}

/// Every line assembled from well-formed fields is a log line, and it reads
/// back as exactly those fields.
pub proof fn lemma_reflog_line_complete(
    old: Seq<char>,
    new: Seq<char>,
    name: Seq<char>,
    email: Seq<char>,
    secs: Seq<char>,
    sign: char,
    offset: Seq<char>,
    message: Seq<char>,
)
    requires
        reflog_fields_ok(old, new, name, email, secs, sign, offset, message),
    ensures
        is_reflog_line(reflog_line_text(old, new, name, email, secs, sign, offset, message)),
        reflog_record_of(reflog_line_text(old, new, name, email, secs, sign, offset, message))
            == (RecordView {
            old_id: hex_bytes(old),
            new_id: hex_bytes(new),
            name,
            email,
            timestamp: decimal(secs),
            offset_minutes: offset_value(seq![sign] + offset, 0),
            message,
        }),
{
    let s = reflog_line_text(old, new, name, email, secs, sign, offset, message);
    let lt: int = (82 + name.len() + 1) as int;
    let gt: int = lt + 1 + email.len();
    let sp: int = gt + 2 + secs.len();
    assert(s.len() == sp + 7 + message.len());
    assert forall|k: int| 0 <= k < 40 implies s[k] == old[k] by {}
    assert(s[40] == ' ');
    assert forall|k: int| 41 <= k < 81 implies s[k] == new[k - 41] by {}
    assert(s[81] == ' ');
    assert forall|k: int| 82 <= k < lt - 1 implies s[k] == name[k - 82] by {}
    assert(s[lt - 1] == ' ');
    assert(s[lt] == '<');
    assert forall|k: int| lt + 1 <= k < gt implies s[k] == email[k - lt - 1] by {}
    assert(s[gt] == '>');
    assert(s[gt + 1] == ' ');
    assert forall|k: int| gt + 2 <= k < sp implies s[k] == secs[k - gt - 2] by {}
    assert(s[sp] == ' ');
    assert(s[sp + 1] == sign);
    assert forall|k: int| sp + 2 <= k < sp + 6 implies s[k] == offset[k - sp - 2] by {}
    assert(s[sp + 6] == '\t');
    assert forall|k: int| sp + 7 <= k < s.len() implies s[k] == message[k - sp - 7] by {}
    assert forall|k: int| 82 <= k < lt implies #[trigger] s[k] != '<' by {
        if k < lt - 1 {
            assert(s[k] == name[k - 82]);
        }
    }
    lemma_first_index_at(s, '<', 82, lt);
    assert forall|k: int| lt + 1 <= k < gt implies #[trigger] s[k] != '>' by {
        assert(s[k] == email[k - lt - 1]);
    }
    lemma_first_index_at(s, '>', lt + 1, gt);
    assert forall|k: int| gt + 2 <= k < sp implies is_digit(#[trigger] s[k]) by {
        assert(s[k] == secs[k - gt - 2]);
    }
    lemma_end_of_digits_at(s, gt + 2, sp);
    assert forall|k: int| sp + 7 <= k < s.len() implies #[trigger] s[k] != '\n' by {
        assert(s[k] == message[k - sp - 7]);
    }
    lemma_first_index_at(s, '\n', sp + 7, s.len() as int);
    assert(s.subrange(0, 40) =~= old);
    assert(s.subrange(41, 81) =~= new);
    assert(s.subrange(82, lt - 1) =~= name);
    assert(s.subrange(lt + 1, gt) =~= email);
    assert(s.subrange(gt + 2, sp) =~= secs);
    assert(s.subrange(sp + 7, s.len() as int) =~= message);
    assert forall|i: int| 0 <= i < 40 implies is_hex_lower(#[trigger] s[i]) by {
        assert(s[i] == old[i]);
    }
    assert forall|i: int| 41 <= i < 81 implies is_hex_lower(#[trigger] s[i]) by {
        assert(s[i] == new[i - 41]);
    }
    assert forall|i: int| sp + 2 <= i < sp + 6 implies is_digit(#[trigger] s[i]) by {
        assert(s[i] == offset[i - sp - 2]);
    }
    let so = seq![sign] + offset;
    assert(so[0] == sign);
    assert(so[1] == offset[0] && so[2] == offset[1] && so[3] == offset[2] && so[4] == offset[3]);
}

/// The first position at or after `from` that holds `c`, or the length.
fn find_char(cs: &Vec<char>, c: char, from: usize) -> (r: usize)
    requires
        from <= cs@.len(),
    ensures
        r as int == first_index_of(cs@, c, from as int),
        from <= r <= cs@.len(),
{
    let mut i = from;
    while i < cs.len() && cs[i] != c
        invariant
            from <= i <= cs@.len(),
            first_index_of(cs@, c, from as int) == first_index_of(cs@, c, i as int),
        decreases cs@.len() - i,
    {
        i = i + 1;
    }
    i
}

/// The first position at or after `from` that holds no digit, or the length.
fn skip_digits(cs: &Vec<char>, from: usize) -> (r: usize)
    requires
        from <= cs@.len(),
    ensures
        r as int == end_of_digits(cs@, from as int),
        from <= r <= cs@.len(),
        forall|i: int| from <= i < r ==> is_digit(#[trigger] cs@[i]),
{
    let mut i = from;
    while i < cs.len() && '0' <= cs[i] && cs[i] <= '9'
        invariant
            from <= i <= cs@.len(),
            end_of_digits(cs@, from as int) == end_of_digits(cs@, i as int),
            forall|k: int| from <= k < i ==> is_digit(#[trigger] cs@[k]),
        decreases cs@.len() - i,
    {
        i = i + 1;
    }
    i
}

/// A longer string of digits is worth at least as much.
pub(crate) proof fn lemma_decimal_grows(ds: Seq<char>, i: int, j: int)
    requires
        0 <= i <= j <= ds.len(),
        forall|k: int| 0 <= k < ds.len() ==> is_digit(#[trigger] ds[k]),
    ensures
        decimal(ds.subrange(0, i)) <= decimal(ds.subrange(0, j)),
    decreases j - i,
{
    if i < j {
        lemma_decimal_grows(ds, i, j - 1);
        assert(ds.subrange(0, j).drop_last() =~= ds.subrange(0, j - 1));
        assert(decimal(ds.subrange(0, j - 1)) >= 0) by {
            lemma_decimal_nonneg(ds.subrange(0, j - 1));
        }
    }
}

proof fn lemma_decimal_nonneg(ds: Seq<char>)
    requires
        forall|k: int| 0 <= k < ds.len() ==> is_digit(#[trigger] ds[k]),
    ensures
        decimal(ds) >= 0,
    decreases ds.len(),
{
    if ds.len() > 0 {
        lemma_decimal_nonneg(ds.drop_last());
    }
}

/// The value of the digits in `[from, to)`, or `None` where it exceeds `i64::MAX`.
fn parse_decimal(cs: &Vec<char>, from: usize, to: usize) -> (r: Option<i64>)
    requires
        from <= to <= cs@.len(),
        forall|i: int| from <= i < to ==> is_digit(#[trigger] cs@[i]),
    ensures
        match r {
            Some(v) => v as int == decimal(cs@.subrange(from as int, to as int)),
            None => decimal(cs@.subrange(from as int, to as int)) > i64::MAX,
        },
{
    let ghost ds = cs@.subrange(from as int, to as int);
    let mut acc: i64 = 0;
    let mut i = from;
    while i < to
        invariant
            from <= i <= to <= cs@.len(),
            ds == cs@.subrange(from as int, to as int),
            forall|k: int| from <= k < to ==> is_digit(#[trigger] cs@[k]),
            acc as int == decimal(ds.subrange(0, i - from)),
            acc >= 0,
        decreases to - i,
    {
        let d = ((cs[i] as u32) - ('0' as u32)) as i64;
        assert(ds.subrange(0, i + 1 - from).drop_last() =~= ds.subrange(0, i - from));
        assert(ds[i - from] == cs@[i as int]);
        if acc > (i64::MAX - d) / 10 {
            proof {
                assert forall|k: int| 0 <= k < ds.len() implies is_digit(#[trigger] ds[k]) by {
                    assert(ds[k] == cs@[from + k]);
                }
                lemma_decimal_grows(ds, i + 1 - from, ds.len() as int);
                assert(ds.subrange(0, ds.len() as int) =~= ds);
            }
            return None;
        }
        acc = acc * 10 + d;
        i = i + 1;
    }
    assert(ds.subrange(0, to - from) =~= ds);
    Some(acc)
}

/// Reads a reference-log line into a record.
///
/// Fails with `MalformedReflogLine` exactly when the line does not follow the
/// grammar of `is_reflog_line`; no partial match is accepted.
pub fn parse_reflog_line(line: &str) -> (r: Result<ReflogRecord, ReflogError>)
    ensures
        match r {
            Ok(rec) => rec.wf() && is_reflog_line(line@) && rec@ == reflog_record_of(line@),
            Err(e) => e == ReflogError::MalformedReflogLine && !is_reflog_line(line@),
        },
{
    let ghost s = line@;
    let n = line.unicode_len();
    let mut cs: Vec<char> = Vec::new();
    let mut i: usize = 0;
    while i < n
        invariant
            n as int == s.len(),
            s == line@,
            i <= n,
            cs@ =~= s.subrange(0, i as int),
        decreases n - i,
    {
        cs.push(line.get_char(i));
        i = i + 1;
    }
    assert(cs@ =~= s);
    if n <= NAME_START || cs[40] != ' ' || cs[81] != ' ' {
        return Err(ReflogError::MalformedReflogLine);
    }
    let mut k: usize = 0;
    while k < 81
        invariant
            cs@ == s,
            s == line@,
            s.len() > NAME_START,
            k <= 81,
            forall|j: int| 0 <= j < k && j != 40 ==> is_hex_lower(#[trigger] s[j]),
        decreases 81 - k,
    {
        let c = cs[k];
        if k != 40 && !(('0' <= c && c <= '9') || ('a' <= c && c <= 'f')) {
            assert(!is_hex_lower(s[k as int]));
            return Err(ReflogError::MalformedReflogLine);
        }
        k = k + 1;
    }
    let lt = find_char(&cs, '<', NAME_START);
    if lt >= n || lt < NAME_START + 2 || cs[lt - 1] != ' ' {
        return Err(ReflogError::MalformedReflogLine);
    }
    let gt = find_char(&cs, '>', lt + 1);
    if gt - lt < 2 || n - gt <= 1 || cs[gt + 1] != ' ' {
        return Err(ReflogError::MalformedReflogLine);
    }
    let sp = skip_digits(&cs, gt + 2);
    if sp - gt < 3 || sp >= n || cs[sp] != ' ' || n - sp < 7 {
        return Err(ReflogError::MalformedReflogLine);
    }
    let sign = cs[sp + 1];
    if sign != '+' && sign != '-' {
        return Err(ReflogError::MalformedReflogLine);
    }
    let mut k: usize = sp + 2;
    while k < sp + 6
        invariant
            cs@ == s,
            s == line@,
            n as int == s.len(),
            sp as int == seconds_end(s),
            sp + 7 <= s.len(),
            sp + 2 <= k <= sp + 6,
            forall|j: int| sp + 2 <= j < k ==> is_digit(#[trigger] s[j]),
        decreases sp + 6 - k,
    {
        if !('0' <= cs[k] && cs[k] <= '9') {
            assert(!is_digit(s[k as int]));
            return Err(ReflogError::MalformedReflogLine);
        }
        k = k + 1;
    }
    if cs[sp + 6] != '\t' || find_char(&cs, '\n', sp + 7) != n {
        return Err(ReflogError::MalformedReflogLine);
    }
    let timestamp = match parse_decimal(&cs, gt + 2, sp) {
        Some(v) => v,
        None => {
            return Err(ReflogError::MalformedReflogLine);
        },
    };
    let d1 = ((cs[sp + 2] as u32) - ('0' as u32)) as i32;
    let d2 = ((cs[sp + 3] as u32) - ('0' as u32)) as i32;
    let d3 = ((cs[sp + 4] as u32) - ('0' as u32)) as i32;
    let d4 = ((cs[sp + 5] as u32) - ('0' as u32)) as i32;
    let minutes = d1 * 600 + d2 * 60 + d3 * 10 + d4;
    let offset_minutes = if sign == '-' {
        -minutes
    } else {
        minutes
    };
    let old_id = ObjectId::from_hex_chars(&cs, 0);
    assert forall|j: int| 41 <= j < 41 + 2 * ID_BYTES implies is_hex_lower(#[trigger] cs@[j]) by {}
    let new_id = ObjectId::from_hex_chars(&cs, 41);
    let name = line.substring_char(NAME_START, lt - 1).to_owned();
    let email = line.substring_char(lt + 1, gt).to_owned();
    let message = line.substring_char(sp + 7, n).to_owned();
    Ok(ReflogRecord { old_id, new_id, name, email, timestamp, offset_minutes, message })
}

} // verus!
