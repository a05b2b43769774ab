use vstd::prelude::*;
use vstd::string::StrSliceExecFns;
use vstd::string::StringExecFns;
use crate::time::Duration;

verus! {

/// The character for one decimal digit.
pub open spec fn digit_char(d: int) -> char
    recommends
        0 <= d < 10,
{
    (48 + d) as char
}

/// The decimal digits of a non-negative number, most significant first,
/// with no leading zeros (a lone zero for 0).
pub open spec fn dec_str(n: int) -> Seq<char>
    recommends
        n >= 0,
    decreases n,
{
    if n < 10 {
        seq![digit_char(n)]
    } else {
        dec_str(n / 10).push(digit_char(n % 10))
    }
}

/// `s` left-padded with zeros up to `width` characters; `s` itself when it
/// is already that long.
pub open spec fn zero_pad(s: Seq<char>, width: int) -> Seq<char> {
    if s.len() >= width {
        s
    } else {
        Seq::new((width - s.len()) as nat, |i: int| '0') + s
    }
}

/// Ten to the `k`.
pub open spec fn pow10(k: int) -> int
    recommends
        k >= 0,
    decreases k,
{
    if k <= 0 {
        1
    } else {
        10 * pow10(k - 1)
    }
}

pub proof fn lemma_dec_str_len(n: int)
    requires
        n >= 0,
    ensures
        dec_str(n).len() >= 1,
    decreases n,
{
    if n >= 10 {
        lemma_dec_str_len(n / 10);
    }
}

/// A number below `10^k` needs at most `k` decimal digits.
pub proof fn lemma_dec_str_len_upper(n: int, k: int)
    requires
        0 <= n < pow10(k),
        k >= 1,
    ensures
        dec_str(n).len() <= k,
    decreases k,
{
    if n >= 10 {
        assert(pow10(k) == 10 * pow10(k - 1));
        assert(n / 10 < pow10(k - 1)) by (nonlinear_arith)
            requires n < 10 * pow10(k - 1), n >= 10;
        lemma_dec_str_len_upper(n / 10, k - 1);
    }
}

pub proof fn lemma_zero_pad_len(s: Seq<char>, width: int)
    ensures
        zero_pad(s, width).len() >= width,
        zero_pad(s, width).len() >= s.len(),
        s.len() <= width ==> zero_pad(s, width).len() == width,
{
}

/// Relies on String::push: it appends exactly the one character.
#[verifier::external_body]
pub(crate) fn push_char(s: &mut String, c: char)
    ensures
        final(s)@ == old(s)@.push(c),
{
    s.push(c);
}

/// The decimal text of `n`, no padding.
pub fn u64_to_string(n: u64) -> (r: String)
    ensures
        r@ == dec_str(n as int),
    decreases n,
{
    let d: u8 = 48 + (n % 10) as u8;
    if n < 10 {
        let mut s = String::new();
        push_char(&mut s, d as char);
        assert(s@ =~= dec_str(n as int));
        s
    } else {
        let mut s = u64_to_string(n / 10);
        push_char(&mut s, d as char);
        assert(s@ =~= dec_str(n as int));
        s
    }
}

/// The decimal text of `n`, left-padded with zeros to at least `width`
/// characters.
pub fn u64_to_string_pad(n: u64, width: usize) -> (r: String)
    ensures
        r@ == zero_pad(dec_str(n as int), width as int),
{
    let digits = u64_to_string(n);
    let len = digits.as_str().unicode_len();
    if len >= width {
        assert(digits@ =~= zero_pad(dec_str(n as int), width as int));
        digits
    } else {
        let mut s = String::new();
        let mut i: usize = 0;
        while i < width - len
            invariant
                len < width,
                i <= width - len,
                s@ =~= Seq::new(i as nat, |k: int| '0'),
            decreases width - len - i,
        {
            push_char(&mut s, '0');
            assert(s@ =~= Seq::new((i + 1) as nat, |k: int| '0'));
            i = i + 1;
        }
        s.append(digits.as_str());
        assert(s@ =~= zero_pad(dec_str(n as int), width as int));
        s
    }
}

/// The canonical text of a duration of `v` nanoseconds:
/// `HH:MM:SS.` followed by exactly nine fractional digits (hours grow past
/// two digits when needed).  The fraction is the nanosecond count itself,
/// zero-padded: nothing is rounded.
pub open spec fn time_str(v: int) -> Seq<char>
    recommends
        v >= 0,
{
    let total = v / 1_000_000_000;
    let frac = v % 1_000_000_000;
    zero_pad(dec_str(total / 60 / 60), 2) + seq![':'] + zero_pad(dec_str(total / 60 % 60), 2)
        + seq![':'] + zero_pad(dec_str(total % 60), 2) + seq!['.'] + zero_pad(dec_str(frac), 9)
}

/// The nine-digit fractional field of the canonical text: the nanosecond
/// count zero-padded to exactly nine digits.
pub fn get_nanos(time: Duration) -> (r: String)
    requires
        time.wf(),
    ensures
        r@ == zero_pad(dec_str(time.nanos as int), 9),
        r@.len() == 9,
{
    proof {
        assert(pow10(9) == 1_000_000_000) by {
            reveal_with_fuel(pow10, 10);
        };
        lemma_dec_str_len_upper(time.nanos as int, 9);
        lemma_dec_str_len(time.nanos as int);
    }
    u64_to_string_pad(time.nanos as u64, 9)
}

/// Formats a duration in the canonical `HH:MM:SS.fraction` form.
pub fn duration_to_string(duration: Duration) -> (r: String)
    requires
        duration.wf(),
    ensures
        r@ == time_str(duration@),
{
    proof {
        vstd::arithmetic::div_mod::lemma_fundamental_div_mod_converse(
            duration@,
            1_000_000_000,
            duration.secs as int,
            duration.nanos as int,
        );
    }
    let nanos = get_nanos(duration);
    let mut r = u64_to_string_pad(duration.secs / 60 / 60, 2);
    r.append(":");
    let m = u64_to_string_pad(duration.secs / 60 % 60, 2);
    r.append(m.as_str());
    r.append(":");
    let s = u64_to_string_pad(duration.secs % 60, 2);
    r.append(s.as_str());
    r.append(".");
    r.append(nanos.as_str());
    proof {
        reveal_strlit(":");
        reveal_strlit(".");
        assert(r@ =~= time_str(duration@));
    }
    r
}

/// The canonical text is never shorter than 18 characters: two digits in
/// each clock field and nine fractional digits.
pub proof fn lemma_time_str_len(v: int)
    requires
        v >= 0,
    ensures
        time_str(v).len() >= 18,
{
    lemma_dec_str_len(v / 1_000_000_000 / 60 / 60);
    lemma_dec_str_len(v / 1_000_000_000 / 60 % 60);
    lemma_dec_str_len(v / 1_000_000_000 % 60);
    lemma_dec_str_len(v % 1_000_000_000);
}

/// The title of the `n`-th chapter, counted from one.
pub open spec fn title_str(n: int) -> Seq<char>
    recommends
        n >= 1,
{
    "Chapter "@ + dec_str(n)
}

/// Builds the `Chapter N` title.
pub fn make_title(n: u64) -> (r: String)
    ensures
        r@ == title_str(n as int),
{
    let mut r = String::from_str("Chapter ");
    let digits = u64_to_string(n);
    r.append(digits.as_str());
    r
}

/// ASCII upper-case letters fold to lower case; everything else stays.
pub open spec fn lower_char(c: char) -> char {
    if 'A' <= c && c <= 'Z' {
        ((c as int) + 32) as char
    } else {
        c
    }
}

pub open spec fn lower_str(s: Seq<char>) -> Seq<char> {
    Seq::new(s.len(), |i: int| lower_char(s[i]))
}

/// The output path stem of a segment: the id as five zero-padded decimal
/// digits, a dot, then the codec tag folded to lower case.
pub open spec fn path_str(id: int, codec: Seq<char>) -> Seq<char>
    recommends
        0 <= id <= u16::MAX,
{
    zero_pad(dec_str(id), 5) + seq!['.'] + lower_str(codec)
}

/// Builds the `00000.codec` path stem.
pub fn make_path(id: u16, codec: &String) -> (r: String)
    ensures
        r@ == path_str(id as int, codec@),
{
    let mut r = u64_to_string_pad(id as u64, 5);
    r.append(".");
    let n = codec.as_str().unicode_len();
    let mut i: usize = 0;
    while i < n
        invariant
            n == codec@.len(),
            i <= n,
            r@ =~= zero_pad(dec_str(id as int), 5) + "."@ + lower_str(codec@).take(i as int),
        decreases n - i,
    {
        let c = codec.as_str().get_char(i);
        let v: u32 = c as u32;
        let lc: char = if 65 <= v && v <= 90 {
            ((v + 32) as u8) as char
        } else {
            c
        };
        assert(lc == lower_char(codec@[i as int]));
        push_char(&mut r, lc);
        assert(r@ =~= zero_pad(dec_str(id as int), 5) + "."@ + lower_str(codec@).take(
            i as int + 1,
        ));
        i = i + 1;
    }
    proof {
        reveal_strlit(".");
        assert(lower_str(codec@).take(n as int) =~= lower_str(codec@));
        assert(r@ =~= path_str(id as int, codec@));
    }
    r
}

pub open spec fn is_digit_char(c: char) -> bool {
    48 <= c as int && c as int <= 57
}

pub open spec fn all_digits(s: Seq<char>) -> bool {
    forall|i: int| 0 <= i < s.len() ==> is_digit_char(s[i])
}

/// The number that a sequence of decimal digits denotes (0 for the empty
/// sequence).
pub open spec fn digits_val(s: Seq<char>) -> int
    recommends
        all_digits(s),
    decreases s.len(),
{
    if s.len() == 0 {
        0
    } else {
        digits_val(s.drop_last()) * 10 + (s.last() as int - 48)
    }
}

pub proof fn lemma_digits_val_nonneg(s: Seq<char>)
    requires
        all_digits(s),
    ensures
        digits_val(s) >= 0,
    decreases s.len(),
{
    if s.len() > 0 {
        assert(all_digits(s.drop_last()));
        lemma_digits_val_nonneg(s.drop_last());
    }
}

pub proof fn lemma_digits_val_upper(s: Seq<char>)
    requires
        all_digits(s),
    ensures
        digits_val(s) < pow10(s.len() as int),
    decreases s.len(),
{
    if s.len() > 0 {
        assert(all_digits(s.drop_last()));
        lemma_digits_val_upper(s.drop_last());
    }
}

pub proof fn lemma_pow10_pos(k: int)
    ensures
        pow10(k) >= 1,
    decreases k,
{
    if k > 0 {
        lemma_pow10_pos(k - 1);
    }
}

pub proof fn lemma_pow10_add(a: int, b: int)
    requires
        a >= 0,
        b >= 0,
    ensures
        pow10(a) * pow10(b) == pow10(a + b),
    decreases a,
{
    if a == 0 {
    } else {
        lemma_pow10_add(a - 1, b);
        assert(pow10(a) * pow10(b) == 10 * (pow10(a - 1) * pow10(b))) by (nonlinear_arith)
            requires pow10(a) == 10 * pow10(a - 1);
    }
}

/// Growing a digit string never shrinks its value.
pub proof fn lemma_digits_val_prefix_mono(s: Seq<char>, i: int, j: int)
    requires
        all_digits(s),
        0 <= i <= j <= s.len(),
    ensures
        digits_val(s.take(i)) <= digits_val(s.take(j)),
    decreases j - i,
{
    if i < j {
        lemma_digits_val_prefix_mono(s, i, j - 1);
        let t = s.take(j);
        assert(t.drop_last() =~= s.take(j - 1));
        assert(forall|k: int| 0 <= k < t.len() ==> is_digit_char(t[k]));
        lemma_digits_val_nonneg(t.drop_last());
        assert(digits_val(t) == digits_val(t.drop_last()) * 10 + (t.last() as int - 48));
    }
}

/// Splitting at the first occurrence of a separator: the part before it and
/// the part after it, or nothing when the separator does not occur.
pub open spec fn split_first_at(s: Seq<char>, ch: char) -> Option<(Seq<char>, Seq<char>)>
    decreases s.len(),
{
    if s.len() == 0 {
        None
    } else if s[0] == ch {
        Some((Seq::empty(), s.drop_first()))
    } else {
        match split_first_at(s.drop_first(), ch) {
            None => None,
            Some(p) => Some((seq![s[0]] + p.0, p.1)),
        }
    }
}

pub proof fn lemma_split_first_at_index(s: Seq<char>, ch: char, i: int)
    requires
        0 <= i < s.len(),
        s[i] == ch,
        forall|j: int| 0 <= j < i ==> s[j] != ch,
    ensures
        split_first_at(s, ch) == Some((s.take(i), s.skip(i + 1))),
    decreases s.len(),
{
    if i == 0 {
        assert(s.take(0) =~= Seq::<char>::empty());
        assert(s.skip(1) =~= s.drop_first());
    } else {
        lemma_split_first_at_index(s.drop_first(), ch, i - 1);
        assert(seq![s[0]] + s.drop_first().take(i - 1) =~= s.take(i));
        assert(s.drop_first().skip(i) =~= s.skip(i + 1));
    }
}

pub proof fn lemma_split_first_at_none(s: Seq<char>, ch: char)
    requires
        forall|j: int| 0 <= j < s.len() ==> s[j] != ch,
    ensures
        split_first_at(s, ch) is None,
    decreases s.len(),
{
    if s.len() > 0 {
        lemma_split_first_at_none(s.drop_first(), ch);
    }
}

/// The index of the first occurrence of `ch`, if any.
fn find_char(s: &str, ch: char) -> (r: Option<usize>)
    ensures
        match r {
            Some(i) => i < s@.len() && s@[i as int] == ch && (forall|j: int|
                0 <= j < i ==> s@[j] != ch),
            None => forall|j: int| 0 <= j < s@.len() ==> s@[j] != ch,
        },
{
    let n = s.unicode_len();
    let mut i: usize = 0;
    while i < n
        invariant
            n == s@.len(),
            i <= n,
            forall|j: int| 0 <= j < i ==> s@[j] != ch,
        decreases n - i,
    {
        if s.get_char(i) == ch {
            return Some(i);
        }
        i = i + 1;
    }
    None
}

/// Reads an unsigned decimal number; nothing (`None`) when the text is
/// empty, holds a non-digit, or denotes a value past `u64::MAX`.
fn parse_digits(s: &str) -> (r: Option<u64>)
    ensures
        match r {
            Some(v) => s@.len() > 0 && all_digits(s@) && digits_val(s@) == v,
            None => s@.len() == 0 || !all_digits(s@) || digits_val(s@) > u64::MAX,
        },
{
    let n = s.unicode_len();
    if n == 0 {
        return None;
    }
    let mut acc: u64 = 0;
    let mut i: usize = 0;
    while i < n
        invariant
            n == s@.len(),
            i <= n,
            all_digits(s@.take(i as int)),
            acc == digits_val(s@.take(i as int)),
        decreases n - i,
    {
        let c = s.get_char(i);
        let v: u32 = c as u32;
        if v < 48 || v > 57 {
            assert(!is_digit_char(s@[i as int]));
            return None;
        }
        let d: u64 = (v - 48) as u64;
        assert(s@.take(i as int + 1).drop_last() =~= s@.take(i as int));
        assert(all_digits(s@.take(i as int + 1)));
        if acc > (u64::MAX - d) / 10 {
            proof {
                assert(acc * 10 + d > u64::MAX) by (nonlinear_arith)
                    requires acc > (u64::MAX - d) / 10, d <= 9, acc >= 0;
                assert(digits_val(s@.take(i as int + 1)) > u64::MAX);
                if all_digits(s@) {
                    lemma_digits_val_prefix_mono(s@, i as int + 1, s@.len() as int);
                    assert(s@.take(s@.len() as int) =~= s@);
                }
            }
            return None;
        }
        assert(acc * 10 + d <= u64::MAX) by (nonlinear_arith)
            requires acc <= (u64::MAX - d) / 10, d <= 9, acc >= 0;
        acc = acc * 10 + d;
        i = i + 1;
    }
    assert(s@.take(n as int) =~= s@);
    Some(acc)
}

/// The three clock fields and the fraction of a `HH:MM:SS.fraction` text
/// are acceptable: digits only, at most nine fractional digits, and a
/// total second count that a machine word can hold.
pub open spec fn timestamp_fields_ok(
    h: Seq<char>,
    m: Seq<char>,
    sec: Seq<char>,
    frac: Seq<char>,
) -> bool {
    h.len() > 0 && m.len() > 0 && sec.len() > 0 && all_digits(h) && all_digits(m) && all_digits(
        sec,
    ) && all_digits(frac) && frac.len() <= 9 && digits_val(h) * 3600 + digits_val(m) * 60
        + digits_val(sec) <= u64::MAX
}

/// The nanosecond count that the four fields denote; fractional digits
/// count from the tenths place, so they are scaled up to nine digits.
pub open spec fn timestamp_nanos(
    h: Seq<char>,
    m: Seq<char>,
    sec: Seq<char>,
    frac: Seq<char>,
) -> int {
    (digits_val(h) * 3600 + digits_val(m) * 60 + digits_val(sec)) * 1_000_000_000 + digits_val(
        frac,
    ) * pow10(9 - frac.len())
}

/// What `parse_timestamp_to_duration` accepts and what it yields: the lone
/// text `0`, or `H:M:S.F` split at the first dot and the first two colons,
/// with acceptable fields.
pub open spec fn spec_parse_timestamp(s: Seq<char>) -> Option<int> {
    if s == seq!['0'] {
        Some(0int)
    } else {
        match split_first_at(s, '.') {
            None => None,
            Some(df) => match split_first_at(df.0, ':') {
                None => None,
                Some(hr) => match split_first_at(hr.1, ':') {
                    None => None,
                    Some(ms) => if timestamp_fields_ok(hr.0, ms.0, ms.1, df.1) {
                        Some(timestamp_nanos(hr.0, ms.0, ms.1, df.1))
                    } else {
                        None
                    },
                },
            },
        }
    }
}

/// Ten to the `k`, executably.
fn pow10_u64(k: usize) -> (r: u64)
    requires
        k <= 9,
    ensures
        r == pow10(k as int),
{
    let mut r: u64 = 1;
    let mut i: usize = 0;
    while i < k
        invariant
            i <= k <= 9,
            r == pow10(i as int),
            r <= 1_000_000_000,
        decreases k - i,
    {
        proof {
            assert(pow10(i as int + 1) == 10 * pow10(i as int));
            assert(pow10(9) == 1_000_000_000) by {
                reveal_with_fuel(pow10, 10);
            };
            lemma_pow10_pos(i as int);
            if i as int + 1 <= 9 {
                lemma_pow10_add(i as int + 1, 9 - (i as int + 1));
                lemma_pow10_pos(9 - (i as int + 1));
                assert(pow10(i as int + 1) <= pow10(i as int + 1) * pow10(
                    9 - (i as int + 1),
                )) by (nonlinear_arith)
                    requires
                        pow10(i as int + 1) >= 1,
                        pow10(9 - (i as int + 1)) >= 1,
                ;
            }
        }
        r = r * 10;
        i = i + 1;
    }
    r
}

/// Whether every character of the text is a decimal digit.
fn check_all_digits(s: &str) -> (b: bool)
    ensures
        b == all_digits(s@),
{
    let n = s.unicode_len();
    let mut i: usize = 0;
    while i < n
        invariant
            n == s@.len(),
            i <= n,
            all_digits(s@.take(i as int)),
        decreases n - i,
    {
        let c = s.get_char(i);
        let v: u32 = c as u32;
        if v < 48 || v > 57 {
            assert(!is_digit_char(s@[i as int]));
            return false;
        }
        assert(s@.take(i as int + 1).drop_last() =~= s@.take(i as int));
        i = i + 1;
    }
    assert(s@.take(n as int) =~= s@);
    true
}

/// Reads three digit fields as hours, minutes and seconds and totals them
/// into seconds, refusing fields that are empty, non-numeric, or whose
/// total leaves the machine's range.
fn hms_total(h: &str, m: &str, sec: &str) -> (r: Option<u64>)
    ensures
        r is Some <==> (h@.len() > 0 && m@.len() > 0 && sec@.len() > 0 && all_digits(h@)
            && all_digits(m@) && all_digits(sec@) && digits_val(h@) * 3600 + digits_val(m@) * 60
            + digits_val(sec@) <= u64::MAX),
        r is Some ==> r.unwrap() == digits_val(h@) * 3600 + digits_val(m@) * 60 + digits_val(
            sec@,
        ),
{
    let ghost gh = h@;
    let ghost gm = m@;
    let ghost gs = sec@;
    let ghost ok = gh.len() > 0 && gm.len() > 0 && gs.len() > 0 && all_digits(gh) && all_digits(
        gm,
    ) && all_digits(gs) && digits_val(gh) * 3600 + digits_val(gm) * 60 + digits_val(gs)
        <= u64::MAX;
    let hv = match parse_digits(h) {
        Some(v) => v,
        None => {
            proof {
                if ok {
                    lemma_digits_val_nonneg(gm);
                    lemma_digits_val_nonneg(gs);
                    assert(false) by (nonlinear_arith)
                        requires
                            digits_val(gh) > u64::MAX,
                            digits_val(gm) >= 0,
                            digits_val(gs) >= 0,
                            digits_val(gh) * 3600 + digits_val(gm) * 60 + digits_val(gs)
                                <= u64::MAX,
                    ;
                }
            }
            return None;
        },
    };
    let mv = match parse_digits(m) {
        Some(v) => v,
        None => {
            proof {
                if ok {
                    lemma_digits_val_nonneg(gh);
                    lemma_digits_val_nonneg(gs);
                    assert(false) by (nonlinear_arith)
                        requires
                            digits_val(gm) > u64::MAX,
                            digits_val(gh) >= 0,
                            digits_val(gs) >= 0,
                            digits_val(gh) * 3600 + digits_val(gm) * 60 + digits_val(gs)
                                <= u64::MAX,
                    ;
                }
            }
            return None;
        },
    };
    let sv = match parse_digits(sec) {
        Some(v) => v,
        None => {
            proof {
                if ok {
                    lemma_digits_val_nonneg(gh);
                    lemma_digits_val_nonneg(gm);
                    assert(false) by (nonlinear_arith)
                        requires
                            digits_val(gs) > u64::MAX,
                            digits_val(gh) >= 0,
                            digits_val(gm) >= 0,
                            digits_val(gh) * 3600 + digits_val(gm) * 60 + digits_val(gs)
                                <= u64::MAX,
                    ;
                }
            }
            return None;
        },
    };
    if hv > u64::MAX / 3600 {
        proof {
            assert(digits_val(gh) * 3600 > u64::MAX) by (nonlinear_arith)
                requires digits_val(gh) > u64::MAX as int / 3600, digits_val(gh) == hv;
            if ok {
                lemma_digits_val_nonneg(gm);
                lemma_digits_val_nonneg(gs);
            }
        }
        return None;
    }
    assert(hv * 3600 <= u64::MAX) by (nonlinear_arith)
        requires hv <= u64::MAX as int / 3600;
    let hsecs: u64 = hv * 3600;
    if mv > (u64::MAX - hsecs) / 60 {
        proof {
            assert(hsecs + digits_val(gm) * 60 > u64::MAX) by (nonlinear_arith)
                requires
                    digits_val(gm) > (u64::MAX - hsecs) as int / 60,
                    digits_val(gm) == mv,
                    hsecs <= u64::MAX,
            ;
            if ok {
                lemma_digits_val_nonneg(gs);
            }
        }
        return None;
    }
    assert(mv * 60 <= u64::MAX - hsecs) by (nonlinear_arith)
        requires mv <= (u64::MAX - hsecs) as int / 60, hsecs <= u64::MAX;
    let part: u64 = hsecs + mv * 60;
    if sv > u64::MAX - part {
        return None;
    }
    Some(part + sv)
}

/// Reads a `HH:MM:SS.fraction` text (or the lone `0`) into a duration.
/// Nothing comes back when the text does not have that shape or does not
/// fit the machine's range.
pub fn parse_timestamp_to_duration(timestamp: String) -> (r: Option<Duration>)
    ensures
        spec_parse_timestamp(timestamp@) is Some <==> r is Some,
        r is Some ==> r.unwrap().wf() && r.unwrap()@ == spec_parse_timestamp(
            timestamp@,
        ).unwrap(),
{
    let s = timestamp.as_str();
    let n = s.unicode_len();
    if n == 1 && s.get_char(0) == '0' {
        proof {
            assert(timestamp@ =~= seq!['0']);
        }
        return Some(Duration::zero());
    }
    assert(timestamp@ != seq!['0']);
    let dot = match find_char(s, '.') {
        Some(i) => i,
        None => {
            proof {
                lemma_split_first_at_none(s@, '.');
            }
            return None;
        },
    };
    proof {
        lemma_split_first_at_index(s@, '.', dot as int);
    }
    let hms = s.substring_char(0, dot);
    let frac = s.substring_char(dot + 1, n);
    let hms_n = hms.unicode_len();
    let c1 = match find_char(hms, ':') {
        Some(i) => i,
        None => {
            proof {
                lemma_split_first_at_none(hms@, ':');
            }
            return None;
        },
    };
    proof {
        lemma_split_first_at_index(hms@, ':', c1 as int);
    }
    let hpart = hms.substring_char(0, c1);
    let rest = hms.substring_char(c1 + 1, hms_n);
    let rest_n = rest.unicode_len();
    let c2 = match find_char(rest, ':') {
        Some(i) => i,
        None => {
            proof {
                lemma_split_first_at_none(rest@, ':');
            }
            return None;
        },
    };
    proof {
        lemma_split_first_at_index(rest@, ':', c2 as int);
    }
    let mpart = rest.substring_char(0, c2);
    let spart = rest.substring_char(c2 + 1, rest_n);
    let ghost gh = hpart@;
    let ghost gm = mpart@;
    let ghost gs = spart@;
    let ghost gf = frac@;
    let total = match hms_total(hpart, mpart, spart) {
        Some(v) => v,
        None => {
            return None;
        },
    };
    let frac_n = frac.unicode_len();
    if frac_n > 9 {
        return None;
    }
    let fv: u64 = if frac_n == 0 {
        0
    } else {
        match parse_digits(frac) {
            Some(v) => v,
            None => {
                proof {
                    if all_digits(gf) {
                        lemma_digits_val_upper(gf);
                        lemma_pow10_add(gf.len() as int, 9 - gf.len() as int);
                        lemma_pow10_pos(9 - gf.len() as int);
                        assert(pow10(9) == 1_000_000_000) by {
                            reveal_with_fuel(pow10, 10);
                        };
                        assert(pow10(gf.len() as int) <= pow10(9)) by (nonlinear_arith)
                            requires
                                pow10(gf.len() as int) * pow10(9 - gf.len() as int) == pow10(9),
                                pow10(9 - gf.len() as int) >= 1,
                                pow10(gf.len() as int) >= 1,
                        ;
                    }
                }
                return None;
            },
        }
    };
    proof {
        if gf.len() > 0 {
            lemma_digits_val_upper(gf);
        }
        lemma_pow10_add(gf.len() as int, 9 - gf.len() as int);
        lemma_pow10_pos(9 - gf.len() as int);
        lemma_pow10_pos(gf.len() as int);
        assert(pow10(9) == 1_000_000_000) by {
            reveal_with_fuel(pow10, 10);
        };
    }
    let scale: u64 = pow10_u64(9 - frac_n);
    proof {
        assert(fv * scale < 1_000_000_000) by (nonlinear_arith)
            requires
                fv < pow10(gf.len() as int) || (gf.len() == 0 && fv == 0),
                scale == pow10(9 - gf.len() as int),
                pow10(gf.len() as int) * pow10(9 - gf.len() as int) == 1_000_000_000,
                scale >= 1,
                fv >= 0,
        ;
        assert(fv * scale == digits_val(gf) * pow10(9 - gf.len() as int));
    }
    let nanos64: u64 = fv * scale;
    let d = Duration::new(total, nanos64 as u32);
    proof {
        assert(timestamp_fields_ok(gh, gm, gs, gf));
        assert(d@ == timestamp_nanos(gh, gm, gs, gf)) by (nonlinear_arith)
            requires
                d@ == total * 1_000_000_000 + nanos64,
                total == digits_val(gh) * 3600 + digits_val(gm) * 60 + digits_val(gs),
                nanos64 == digits_val(gf) * pow10(9 - gf.len() as int),
                timestamp_nanos(gh, gm, gs, gf) == (digits_val(gh) * 3600 + digits_val(gm) * 60
                    + digits_val(gs)) * 1_000_000_000 + digits_val(gf) * pow10(
                    9 - gf.len() as int,
                ),
        ;
    }
    Some(d)
}

/// Parses both texts, subtracts the second duration from the first
/// (clamped at zero), and hands back the canonical text of the difference
/// together with the difference itself.
pub fn substract_str_time(time1: String, time2: String) -> (r: Option<(String, Duration)>)
    ensures
        r is Some <==> (spec_parse_timestamp(time1@) is Some && spec_parse_timestamp(time2@)
            is Some),
        r is Some ==> {
            let v1 = spec_parse_timestamp(time1@).unwrap();
            let v2 = spec_parse_timestamp(time2@).unwrap();
            r.unwrap().1.wf() && r.unwrap().1@ == (if v1 >= v2 {
                v1 - v2
            } else {
                0
            }) && r.unwrap().0@ == time_str(r.unwrap().1@)
        },
{
    let d1 = match parse_timestamp_to_duration(time1) {
        Some(d) => d,
        None => {
            return None;
        },
    };
    let d2 = match parse_timestamp_to_duration(time2) {
        Some(d) => d,
        None => {
            return None;
        },
    };
    let d = d1.saturating_sub(d2);
    let text = duration_to_string(d);
    Some((text, d))
}

/// What `str_to_time` accepts and yields: `H:M:S.F` becomes the total
/// second count in decimal, followed by the first three fractional digits
/// unscaled (a thousandths timebase when the fraction has three digits).
pub open spec fn spec_str_to_time(s: Seq<char>) -> Option<Seq<char>> {
    match split_first_at(s, ':') {
        None => None,
        Some(hr) => match split_first_at(hr.1, ':') {
            None => None,
            Some(ms) => match split_first_at(ms.1, '.') {
                None => None,
                Some(sf) => if hr.0.len() > 0 && ms.0.len() > 0 && sf.0.len() > 0 && all_digits(
                    hr.0,
                ) && all_digits(ms.0) && all_digits(sf.0) && all_digits(sf.1) && digits_val(hr.0)
                    * 3600 + digits_val(ms.0) * 60 + digits_val(sf.0) <= u64::MAX {
                    Some(
                        dec_str(
                            digits_val(hr.0) * 3600 + digits_val(ms.0) * 60 + digits_val(sf.0),
                        ) + (if sf.1.len() <= 3 {
                            sf.1
                        } else {
                            sf.1.take(3)
                        }),
                    )
                } else {
                    None
                },
            },
        },
    }
}

/// Turns a `HH:MM:SS.fraction` text into the whole-second total followed
/// by at most three fractional digits, the form the FFMETADATA timebase
/// wants.
pub fn str_to_time(start: String) -> (r: Option<String>)
    ensures
        spec_str_to_time(start@) is Some <==> r is Some,
        r is Some ==> r.unwrap()@ == spec_str_to_time(start@).unwrap(),
{
    let s = start.as_str();
    let n = s.unicode_len();
    let c1 = match find_char(s, ':') {
        Some(i) => i,
        None => {
            proof {
                lemma_split_first_at_none(s@, ':');
            }
            return None;
        },
    };
    proof {
        lemma_split_first_at_index(s@, ':', c1 as int);
    }
    let hpart = s.substring_char(0, c1);
    let rest = s.substring_char(c1 + 1, n);
    let rest_n = rest.unicode_len();
    let c2 = match find_char(rest, ':') {
        Some(i) => i,
        None => {
            proof {
                lemma_split_first_at_none(rest@, ':');
            }
            return None;
        },
    };
    proof {
        lemma_split_first_at_index(rest@, ':', c2 as int);
    }
    let mpart = rest.substring_char(0, c2);
    let tail = rest.substring_char(c2 + 1, rest_n);
    let tail_n = tail.unicode_len();
    let dot = match find_char(tail, '.') {
        Some(i) => i,
        None => {
            proof {
                lemma_split_first_at_none(tail@, '.');
            }
            return None;
        },
    };
    proof {
        lemma_split_first_at_index(tail@, '.', dot as int);
    }
    let spart = tail.substring_char(0, dot);
    let frac = tail.substring_char(dot + 1, tail_n);
    let frac_n = frac.unicode_len();
    let total = match hms_total(hpart, mpart, spart) {
        Some(v) => v,
        None => {
            return None;
        },
    };
    // The fraction must be numeric even though its digits pass through
    // unscaled.
    if !check_all_digits(frac) {
        return None;
    }
    let mut r = u64_to_string(total);
    let kept = if frac_n <= 3 {
        frac
    } else {
        frac.substring_char(0, 3)
    };
    r.append(kept);
    proof {
        if frac@.len() <= 3 {
            assert(frac@.take(frac@.len() as int) =~= frac@);
        }
    }
    Some(r)
}

} // verus!
