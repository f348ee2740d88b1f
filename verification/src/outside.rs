//! Calls into other crates and into parts of std that Verus does not
//! specify. Each item here is trusted: its contract is believed, not proved.
use vstd::prelude::*;
use crate::vc::revision::{TimeStamp, time_in_range};
use sha2::Digest;

verus! {

/// The lower-case hexadecimal SHA-256 digest of the UTF-8 bytes of a text.
pub uninterp spec fn sha256_hex(data: Seq<char>) -> Seq<char>;

/// A lower-case hexadecimal digit.
pub open spec fn is_lower_hex(c: char) -> bool {
    ('0' <= c && c <= '9') || ('a' <= c && c <= 'f')
}

/// `sha2::Sha256::digest` of the bytes of `data`, formatted with `{:x}`.
/// Trusted: the result is the named digest of the text, and, as the
/// `LowerHex` formatting of a 32-byte array writes two digits per byte,
/// 64 lower-case hexadecimal digits.
#[verifier::external_body]
pub(crate) fn sha(data: &str) -> (r: String)
    ensures
        r@ == sha256_hex(data@),
        r@.len() == 64,
        forall|i: int| 0 <= i < r@.len() ==> is_lower_hex(#[trigger] r@[i]),
{
    format!("{:x}", sha2::Sha256::digest(data))
}

/// The unified-diff text that `diffy` writes for a patch from one text to
/// another.
pub uninterp spec fn diffy_patch(original: Seq<char>, modified: Seq<char>) -> Seq<char>;

/// `diffy::create_patch(original, modified)`, displayed. Trusted: the result
/// is the named patch text of the two arguments; nothing more is stated of it.
#[verifier::external_body]
pub(crate) fn create_patch_text(original: &str, modified: &str) -> (r: String)
    ensures
        r@ == diffy_patch(original@, modified@),
{
    diffy::create_patch(original, modified).to_string()
}

/// What `diffy`'s three-way merge gives: the merged text, or the text with
/// conflict markers when the two sides conflict.
pub uninterp spec fn diffy_merge(ancestor: Seq<char>, ours: Seq<char>, theirs: Seq<char>) -> Result<
    Seq<char>,
    Seq<char>,
>;

/// `diffy::merge(ancestor, ours, theirs)`. Trusted: the result is the named
/// merge of the three texts; nothing more is stated of it.
#[verifier::external_body]
pub(crate) fn merge_texts(ancestor: &str, ours: &str, theirs: &str) -> (r: Result<String, String>)
    ensures
        match r {
            Ok(s) => diffy_merge(ancestor@, ours@, theirs@) == Ok::<Seq<char>, Seq<char>>(s@),
            Err(s) => diffy_merge(ancestor@, ours@, theirs@) == Err::<Seq<char>, Seq<char>>(s@),
        },
{
    diffy::merge(ancestor, ours, theirs)
}

/// Whether `name` matches `pattern` read as a glob pattern; an invalid
/// pattern matches nothing.
pub uninterp spec fn glob_match(pattern: Seq<char>, name: Seq<char>) -> bool;

/// `glob::Pattern::new(pattern)` and, when the pattern is valid, its
/// `matches(name)`, with glob's default options (those that `glob::glob`
/// uses). Trusted: the result is the named match of the two texts; nothing
/// more is stated of it.
#[verifier::external_body]
pub(crate) fn name_matches(pattern: &str, name: &str) -> (r: bool)
    ensures
        r == glob_match(pattern@, name@),
{
    match glob::Pattern::new(pattern) {
        Ok(p) => p.matches(name),
        Err(_) => false,
    }
}

/// `std::time::SystemTime::now()`, as the time since the Unix epoch (zero
/// for a clock set before it). Trusted; as the clock decides the result,
/// nothing is stated of it.
#[verifier::external_body]
pub(crate) fn system_time_now() -> (r: TimeStamp) {
    let d = std::time::SystemTime::now().duration_since(std::time::UNIX_EPOCH).unwrap_or_default();
    TimeStamp { secs: d.as_secs(), nanos: d.subsec_nanos() }
}

/// A decimal digit.
pub open spec fn is_digit(c: char) -> bool {
    '0' <= c && c <= '9'
}

/// `n` written in decimal with exactly `w` digits, zeros in front; only the
/// last `w` digits are kept when `n` has more.
pub open spec fn zero_padded(n: nat, w: nat) -> Seq<char>
    decreases w,
{
    if w == 0 {
        Seq::empty()
    } else {
        zero_padded(n / 10, (w - 1) as nat).push(seq!['0', '1', '2', '3', '4', '5', '6', '7', '8', '9'][(n % 10) as int])
    }
}

/// The fraction of a second that chrono writes after the seconds of a clock
/// time with `n` nanoseconds: nothing for none, else a point and three, six
/// or nine digits, the fewest that hold it.
pub open spec fn second_fraction(n: nat) -> Seq<char> {
    if n == 0 {
        Seq::empty()
    } else if n % 1_000_000 == 0 {
        seq!['.'] + zero_padded(n / 1_000_000, 3)
    } else if n % 1_000 == 0 {
        seq!['.'] + zero_padded(n / 1_000, 6)
    } else {
        seq!['.'] + zero_padded(n, 9)
    }
}

/// A date as chrono writes it: the year (digits, with a `+` in front past
/// the year 9999), then `-MM-DD`.
pub open spec fn date_text(a: Seq<char>) -> bool {
    let n = a.len();
    &&& n >= 10
    &&& forall|i: int| 0 <= i < n - 6 ==> is_digit(#[trigger] a[i]) || a[i] == '+'
    &&& a[n - 6] == '-' && a[n - 3] == '-'
    &&& is_digit(a[n - 5]) && is_digit(a[n - 4]) && is_digit(a[n - 2]) && is_digit(a[n - 1])
}

/// A clock time with `n` nanoseconds as chrono writes it: `HH:MM:SS`, then
/// the fraction of the second.
pub open spec fn clock_text(b: Seq<char>, n: nat) -> bool {
    &&& b.len() >= 8
    &&& is_digit(b[0]) && is_digit(b[1]) && b[2] == ':'
    &&& is_digit(b[3]) && is_digit(b[4]) && b[5] == ':'
    &&& is_digit(b[6]) && is_digit(b[7])
    &&& b.subrange(8, b.len() as int) == second_fraction(n)
}

/// An offset from UTC as chrono writes a `FixedOffset`: a sign, then
/// `HH:MM`, and `:SS` when it has seconds.
pub open spec fn offset_text(c: Seq<char>) -> bool {
    &&& c.len() == 6 || c.len() == 9
    &&& c[0] == '+' || c[0] == '-'
    &&& is_digit(c[1]) && is_digit(c[2]) && c[3] == ':' && is_digit(c[4]) && is_digit(c[5])
    &&& c.len() == 9 ==> c[6] == ':' && is_digit(c[7]) && is_digit(c[8])
}

/// A text that writes the time `t` in some time zone as chrono's `Display`
/// of a `DateTime<Local>` does: the date, a space, the clock time, whose
/// fraction of a second is that of `t`, a space and the offset from UTC.
#[verifier::opaque]
pub open spec fn date_time_text(t: TimeStamp, s: Seq<char>) -> bool {
    exists|a: Seq<char>, b: Seq<char>, c: Seq<char>|
        #![trigger date_text(a), clock_text(b, (t.nanos % 1_000_000_000) as nat), offset_text(c)]
        s == a + seq![' '] + b + seq![' '] + c && date_text(a) && clock_text(b, (t.nanos % 1_000_000_000) as nat)
            && offset_text(c)
}

/// `chrono::DateTime::<Local>::from(t).to_string()`: the time written in the
/// machine's time zone. Trusted. The time zone decides the date, the clock
/// time and the offset, so they are not stated; what chrono's `Display`
/// impls show of every outcome is: `DateTime` writes its local date and
/// time, a space and its offset; `NaiveDateTime` the date, a space and the
/// time; `NaiveDate` the year and two-digit month and day; `NaiveTime`
/// two-digit hours, minutes and seconds and the nanoseconds, which
/// `Duration::new` keeps below a second and which no offset changes;
/// `FixedOffset` a sign, hours and minutes, and seconds when it has some.
/// `Duration::new` carries whole seconds out of the nanoseconds; chrono's
/// conversion unwraps a date past its last year, 262142 (`MAX_YEAR`), and
/// panics there. `requires` keeps the carried time within that year, where
/// neither that unwrap nor the addition to the epoch can fail.
#[verifier::external_body]
pub(crate) fn local_date_time(t: TimeStamp) -> (r: String)
    requires
        time_in_range(t),
    ensures
        date_time_text(t, r@),
{
    let st = std::time::UNIX_EPOCH + std::time::Duration::new(t.secs, t.nanos);
    chrono::DateTime::<chrono::Local>::from(st).to_string()
}

/// `users::get_current_uid()`. Trusted; the process decides the result, so
/// nothing is stated of it.
#[verifier::external_body]
pub(crate) fn current_uid() -> (r: u32) {
    users::get_current_uid()
}

/// `users::get_user_by_uid(uid)`, by the account's name. Trusted; the
/// system's account database decides the result, so nothing is stated of it.
#[verifier::external_body]
pub(crate) fn user_name_by_uid(uid: u32) -> (r: Option<String>) {
    users::get_user_by_uid(uid).map(|u| u.name().to_string_lossy().into_owned())
}

} // verus!
