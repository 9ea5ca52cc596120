//! Character-sequence utilities: lexicographic ordering, comparison, and
//! string building, shared by the catalog's query ordering and the
//! metadata formatting rules.
use vstd::prelude::*;

verus! {

/// Lexicographic "less than or equal" on character sequences, by Unicode
/// scalar value. This is the order the catalog uses for paths and for the
/// ISO-8601 timestamp strings (where it coincides with chronological order).
pub open spec fn lex_le(a: Seq<char>, b: Seq<char>) -> bool
    decreases a.len(),
{
    if a.len() == 0 {
        true
    } else if b.len() == 0 {
        false
    } else if (a[0] as u32) < (b[0] as u32) {
        true
    } else if (a[0] as u32) > (b[0] as u32) {
        false
    } else {
        lex_le(a.drop_first(), b.drop_first())
    }
}

pub proof fn lemma_lex_le_refl(a: Seq<char>)
    ensures
        lex_le(a, a),
    decreases a.len(),
{
    if a.len() > 0 {
        lemma_lex_le_refl(a.drop_first());
    }
}

pub proof fn lemma_lex_le_total(a: Seq<char>, b: Seq<char>)
    ensures
        lex_le(a, b) || lex_le(b, a),
    decreases a.len(),
{
    if a.len() > 0 && b.len() > 0 && (a[0] as u32) == (b[0] as u32) {
        lemma_lex_le_total(a.drop_first(), b.drop_first());
    }
}

pub proof fn lemma_lex_le_trans(a: Seq<char>, b: Seq<char>, c: Seq<char>)
    requires
        lex_le(a, b),
        lex_le(b, c),
    ensures
        lex_le(a, c),
    decreases a.len(),
{
    if a.len() > 0 && b.len() > 0 && c.len() > 0 && (a[0] as u32) == (b[0] as u32) && (b[0] as u32)
        == (c[0] as u32) {
        lemma_lex_le_trans(a.drop_first(), b.drop_first(), c.drop_first());
    }
}

pub proof fn lemma_lex_le_antisym(a: Seq<char>, b: Seq<char>)
    requires
        lex_le(a, b),
        lex_le(b, a),
    ensures
        a == b,
    decreases a.len(),
{
    if a.len() == 0 {
        assert(b.len() == 0);
        assert(a =~= b);
    } else {
        lemma_lex_le_antisym(a.drop_first(), b.drop_first());
        assert(a[0] as u32 == b[0] as u32);
        assert(a[0] == b[0]) by {
            vstd::utf8::char_u32_cast(a[0], a[0] as u32);
            vstd::utf8::char_u32_cast(b[0], b[0] as u32);
        }
        assert forall|k: int| 0 <= k < a.len() implies #[trigger] a[k] == b[k] by {
            if k > 0 {
                assert(a.drop_first()[k - 1] == a[k]);
                assert(b.drop_first()[k - 1] == b[k]);
                assert(a.drop_first()[k - 1] == b.drop_first()[k - 1]);
            }
        }
        assert(a =~= b);
    }
}

/// Three-way comparison result.
#[derive(Clone, Copy, PartialEq, Eq, Structural, Debug)]
pub enum Rel {
    Below,
    Same,
    Above,
}

proof fn lemma_lex_le_from_prefix_diff(a: Seq<char>, b: Seq<char>, i: int)
    requires
        0 <= i < a.len(),
        0 <= i < b.len(),
        a.subrange(0, i) == b.subrange(0, i),
        (a[i] as u32) < (b[i] as u32),
    ensures
        lex_le(a, b),
        !lex_le(b, a),
    decreases i,
{
    if i > 0 {
        assert(a[0] == a.subrange(0, i)[0]);
        assert(b[0] == b.subrange(0, i)[0]);
        assert(a.drop_first().subrange(0, i - 1) =~= a.subrange(0, i).drop_first());
        assert(b.drop_first().subrange(0, i - 1) =~= b.subrange(0, i).drop_first());
        assert(a.drop_first()[i - 1] == a[i]);
        assert(b.drop_first()[i - 1] == b[i]);
        lemma_lex_le_from_prefix_diff(a.drop_first(), b.drop_first(), i - 1);
    }
}

proof fn lemma_lex_le_of_prefix(a: Seq<char>, b: Seq<char>)
    requires
        a.len() <= b.len(),
        a == b.subrange(0, a.len() as int),
    ensures
        lex_le(a, b),
    decreases a.len(),
{
    if a.len() > 0 {
        assert(a[0] == b.subrange(0, a.len() as int)[0]);
        assert(a.drop_first() == b.subrange(0, a.len() as int).drop_first());
        assert(b.subrange(0, a.len() as int).drop_first() =~= b.drop_first().subrange(
            0,
            a.len() - 1,
        ));
        lemma_lex_le_of_prefix(a.drop_first(), b.drop_first());
    }
}

/// Compares two strings in the lexicographic order of `lex_le`.
pub fn str_cmp(a: &str, b: &str) -> (r: Rel)
    ensures
        r == Rel::Same ==> a@ == b@,
        r == Rel::Below ==> lex_le(a@, b@) && a@ != b@,
        r == Rel::Above ==> lex_le(b@, a@) && a@ != b@,
{
    let a_len = a.unicode_len();
    let b_len = b.unicode_len();
    let min_len = if a_len < b_len {
        a_len
    } else {
        b_len
    };
    let mut i: usize = 0;
    while i < min_len
        invariant
            0 <= i <= min_len,
            min_len <= a@.len(),
            min_len <= b@.len(),
            a_len == a@.len(),
            b_len == b@.len(),
            min_len == if a_len < b_len { a_len } else { b_len },
            a@.subrange(0, i as int) == b@.subrange(0, i as int),
        decreases min_len - i,
    {
        let ca = a.get_char(i);
        let cb = b.get_char(i);
        let va = ca as u32;
        let vb = cb as u32;
        if va < vb {
            proof {
                lemma_lex_le_from_prefix_diff(a@, b@, i as int);
            }
            return Rel::Below;
        }
        if va > vb {
            proof {
                lemma_lex_le_from_prefix_diff(b@, a@, i as int);
            }
            return Rel::Above;
        }
        proof {
            assert(a@.subrange(0, i + 1 as int) =~= b@.subrange(0, i + 1 as int)) by {
                assert forall|k: int| 0 <= k < i + 1 implies a@[k] == b@[k] by {
                    if k < i {
                        assert(a@.subrange(0, i as int)[k] == b@.subrange(0, i as int)[k]);
                    } else {
                        assert(a@[k] as u32 == b@[k] as u32);
                    }
                }
            }
        }
        i = i + 1;
    }
    if a_len == b_len {
        proof {
            assert(a@ =~= b@) by {
                assert(a@.subrange(0, a@.len() as int) =~= a@);
                assert(b@.subrange(0, b@.len() as int) =~= b@);
            }
        }
        Rel::Same
    } else if a_len < b_len {
        proof {
            assert(a@ =~= b@.subrange(0, a@.len() as int)) by {
                assert(a@.subrange(0, i as int) =~= a@);
            }
            lemma_lex_le_of_prefix(a@, b@);
            assert(a@ != b@) by {
                assert(a@.len() != b@.len());
            }
        }
        Rel::Below
    } else {
        proof {
            assert(b@ =~= a@.subrange(0, b@.len() as int)) by {
                assert(b@.subrange(0, i as int) =~= b@);
            }
            lemma_lex_le_of_prefix(b@, a@);
            assert(a@ != b@) by {
                assert(a@.len() != b@.len());
            }
        }
        Rel::Above
    }
}

/// True when the two strings hold the same characters.
pub fn str_eq(a: &str, b: &str) -> (r: bool)
    ensures
        r == (a@ == b@),
{
    let rel = str_cmp(a, b);
    match rel {
        Rel::Same => true,
        _ => false,
    }
}

/// Lexicographic "less than or equal" as an executable test.
pub fn str_le(a: &str, b: &str) -> (r: bool)
    ensures
        r == lex_le(a@, b@),
{
    let rel = str_cmp(a, b);
    proof {
        if rel == Rel::Same {
            lemma_lex_le_refl(a@);
        }
        if rel == Rel::Above && lex_le(a@, b@) {
            lemma_lex_le_antisym(a@, b@);
        }
    }
    match rel {
        Rel::Above => false,
        _ => true,
    }
}

/// True when `p` is a prefix of `s`.
pub open spec fn is_prefix_of(p: Seq<char>, s: Seq<char>) -> bool {
    p.len() <= s.len() && p == s.subrange(0, p.len() as int)
}

/// Tests whether `s` starts with the prefix `p`.
pub fn str_starts_with(s: &str, p: &str) -> (r: bool)
    ensures
        r == is_prefix_of(p@, s@),
{
    let s_len = s.unicode_len();
    let p_len = p.unicode_len();
    if p_len > s_len {
        return false;
    }
    let mut i: usize = 0;
    while i < p_len
        invariant
            0 <= i <= p_len,
            p_len == p@.len(),
            s_len == s@.len(),
            p_len <= s_len,
            forall|k: int| 0 <= k < i ==> p@[k] == s@[k],
        decreases p_len - i,
    {
        let cs = s.get_char(i);
        let cp = p.get_char(i);
        if (cs as u32) != (cp as u32) {
            proof {
                vstd::utf8::char_u32_cast(cs, cs as u32);
                vstd::utf8::char_u32_cast(cp, cp as u32);
                assert(p@[i as int] != s@[i as int]);
                assert(!is_prefix_of(p@, s@)) by {
                    if p@ == s@.subrange(0, p@.len() as int) {
                        assert(p@[i as int] == s@.subrange(0, p@.len() as int)[i as int]);
                    }
                }
            }
            return false;
        }
        proof {
            vstd::utf8::char_u32_cast(cs, cs as u32);
            vstd::utf8::char_u32_cast(cp, cp as u32);
        }
        i = i + 1;
    }
    proof {
        assert(p@ =~= s@.subrange(0, p@.len() as int));
    }
    true
}

/// Relies on `String::push` from std: appends one character.
#[verifier::external_body]
pub fn push_char(s: &mut String, c: char)
    ensures
        final(s)@ == old(s)@.push(c),
{
    s.push(c);
}

/// ASCII whitespace, as trimmed from the edges of metadata text.
pub open spec fn is_space(c: char) -> bool {
    c == ' ' || c == '\t' || c == '\n' || c == '\r'
}

/// `s` without leading whitespace.
pub open spec fn trim_start_spec(s: Seq<char>) -> Seq<char>
    decreases s.len(),
{
    if s.len() > 0 && is_space(s[0]) {
        trim_start_spec(s.drop_first())
    } else {
        s
    }
}

/// `s` without trailing whitespace.
pub open spec fn trim_end_spec(s: Seq<char>) -> Seq<char>
    decreases s.len(),
{
    if s.len() > 0 && is_space(s.last()) {
        trim_end_spec(s.drop_last())
    } else {
        s
    }
}

/// `s` without leading or trailing whitespace.
pub open spec fn trim_spec(s: Seq<char>) -> Seq<char> {
    trim_end_spec(trim_start_spec(s))
}

proof fn lemma_trim_start_at(s: Seq<char>, a: int)
    requires
        0 <= a <= s.len(),
        forall|k: int| 0 <= k < a ==> is_space(s[k]),
        a < s.len() ==> !is_space(s[a]),
    ensures
        trim_start_spec(s) == s.subrange(a, s.len() as int),
    decreases a,
{
    if a == 0 {
        assert(trim_start_spec(s) =~= s.subrange(0, s.len() as int));
    } else {
        let rest = s.drop_first();
        assert forall|k: int| 0 <= k < a - 1 implies is_space(rest[k]) by {
            assert(rest[k] == s[k + 1]);
        }
        if a - 1 < rest.len() {
            assert(rest[a - 1] == s[a]);
        }
        lemma_trim_start_at(rest, a - 1);
        assert(rest.subrange(a - 1, rest.len() as int) =~= s.subrange(a, s.len() as int));
    }
}

proof fn lemma_trim_end_at(s: Seq<char>, b: int)
    requires
        0 <= b <= s.len(),
        forall|k: int| b <= k < s.len() ==> is_space(s[k]),
        b > 0 ==> !is_space(s[b - 1]),
    ensures
        trim_end_spec(s) == s.subrange(0, b),
    decreases s.len() - b,
{
    if b == s.len() {
        assert(trim_end_spec(s) =~= s.subrange(0, b));
    } else {
        let head = s.drop_last();
        assert forall|k: int| b <= k < head.len() implies is_space(head[k]) by {
            assert(head[k] == s[k]);
        }
        if b > 0 {
            assert(head[b - 1] == s[b - 1]);
        }
        lemma_trim_end_at(head, b);
        assert(head.subrange(0, b) =~= s.subrange(0, b));
    }
}

/// Whether a character is ASCII whitespace.
pub fn is_space_char(c: char) -> (r: bool)
    ensures
        r == is_space(c),
{
    c == ' ' || c == '\t' || c == '\n' || c == '\r'
}

/// Removes leading and trailing ASCII whitespace.
pub fn trim(s: &str) -> (r: &str)
    ensures
        r@ == trim_spec(s@),
{
    let len = s.unicode_len();
    let mut a: usize = 0;
    while a < len && is_space_char(s.get_char(a))
        invariant
            0 <= a <= len,
            len == s@.len(),
            forall|k: int| 0 <= k < a ==> is_space(s@[k]),
        decreases len - a,
    {
        a = a + 1;
    }
    proof {
        lemma_trim_start_at(s@, a as int);
    }
    let mut b: usize = len;
    while b > a && is_space_char(s.get_char(b - 1))
        invariant
            a <= b <= len,
            len == s@.len(),
            a < len ==> !is_space(s@[a as int]),
            forall|k: int| b <= k < len ==> is_space(s@[k]),
        decreases b,
    {
        b = b - 1;
    }
    let r = s.substring_char(a, b);
    proof {
        let mid = s@.subrange(a as int, len as int);
        assert forall|k: int| b - a <= k < mid.len() implies is_space(mid[k]) by {
            assert(mid[k] == s@[a + k]);
        }
        if b > a {
            assert(mid[b - a - 1] == s@[b - 1 as int]);
        }
        lemma_trim_end_at(mid, b - a);
        assert(mid.subrange(0, b - a) =~= s@.subrange(a as int, b as int));
    }
    r
}

/// A decimal digit.
pub open spec fn is_digit(c: char) -> bool {
    48 <= (c as u32) <= 57
}

/// The numeric value of a digit character.
pub open spec fn digit_val(c: char) -> int {
    (c as u32) - 48
}

/// The value of a digit sequence read in base ten.
pub open spec fn digits_val(s: Seq<char>) -> int
    decreases s.len(),
{
    if s.len() == 0 {
        0
    } else {
        digits_val(s.drop_last()) * 10 + digit_val(s.last())
    }
}

/// True when `s` is one or more decimal digits.
pub open spec fn all_digits(s: Seq<char>) -> bool {
    s.len() > 0 && forall|i: int| 0 <= i < s.len() ==> is_digit(#[trigger] s[i])
}

/// What `str::parse::<i32>` accepts: an optional sign followed by one or
/// more digits, whose value fits in an `i32`.
pub open spec fn parse_i32_spec(s: Seq<char>) -> Option<i32> {
    let negative = s.len() > 0 && s[0] == '-';
    let digits = if s.len() > 0 && (s[0] == '-' || s[0] == '+') {
        s.drop_first()
    } else {
        s
    };
    if all_digits(digits) {
        let v = digits_val(digits);
        if negative && v <= 0x8000_0000 {
            Some((-v) as i32)
        } else if !negative && v <= 0x7fff_ffff {
            Some(v as i32)
        } else {
            None
        }
    } else {
        None
    }
}

proof fn lemma_digits_val_bounds(s: Seq<char>)
    requires
        forall|i: int| 0 <= i < s.len() ==> is_digit(#[trigger] s[i]),
    ensures
        digits_val(s) >= 0,
        s.len() > 0 ==> digits_val(s) >= digits_val(s.drop_last()),
    decreases s.len(),
{
    if s.len() > 0 {
        assert forall|i: int| 0 <= i < s.drop_last().len() implies is_digit(
            #[trigger] s.drop_last()[i],
        ) by {
            assert(s.drop_last()[i] == s[i]);
        }
        lemma_digits_val_bounds(s.drop_last());
    }
}

/// Parses a decimal integer with optional sign, exactly as
/// `str::parse::<i32>` does: `Some` on a well-formed in-range number,
/// `None` on anything else.
pub fn parse_i32(s: &str) -> (r: Option<i32>)
    ensures
        r == parse_i32_spec(s@),
{
    let len = s.unicode_len();
    if len == 0 {
        return None;
    }
    let first = s.get_char(0);
    let negative = first == '-';
    let has_sign = first == '-' || first == '+';
    let start: usize = if has_sign {
        1
    } else {
        0
    };
    let ghost digits = if has_sign {
        s@.drop_first()
    } else {
        s@
    };
    if start >= len {
        // A bare sign has no digits.
        assert(!all_digits(digits));
        return None;
    }
    let mut acc: i64 = 0;
    let mut over: bool = false;
    let mut i: usize = start;
    while i < len
        invariant
            start <= i <= len,
            len == s@.len(),
            len > 0,
            has_sign == (s@[0] == '-' || s@[0] == '+'),
            start == if has_sign { 1int } else { 0int },
            digits == if has_sign { s@.drop_first() } else { s@ },
            digits.len() == len - start,
            forall|k: int| 0 <= k < i - start ==> is_digit(#[trigger] digits[k]),
            !over ==> acc == digits_val(digits.subrange(0, i - start)) && 0 <= acc
                <= 0x8000_0000,
            over ==> digits_val(digits.subrange(0, i - start)) > 0x8000_0000,
        decreases len - i,
    {
        let c = s.get_char(i);
        let v = c as u32;
        proof {
            if has_sign {
                assert(digits[i - 1] == s@[i as int]);
            }
        }
        if v < 48 || v > 57 {
            proof {
                assert(!is_digit(digits[i - start]));
                assert(!all_digits(digits));
            }
            return None;
        }
        let d: i64 = (v - 48) as i64;
        proof {
            let pre = digits.subrange(0, i - start);
            let post = digits.subrange(0, i + 1 - start);
            assert(post.drop_last() =~= pre);
            assert(post.last() == digits[i - start]);
            assert forall|k: int| 0 <= k < post.len() implies is_digit(#[trigger] post[k]) by {
                assert(post[k] == digits[k]);
            }
            lemma_digits_val_bounds(post);
        }
        if over {
            proof {
                let pre = digits.subrange(0, i - start);
                let post = digits.subrange(0, i + 1 - start);
                assert(digits_val(post) == digits_val(pre) * 10 + digit_val(digits[i - start]));
            }
        } else {
            let next = acc * 10 + d;
            if next > 0x8000_0000 {
                over = true;
            } else {
                acc = next;
            }
        }
        i = i + 1;
    }
    proof {
        assert(digits.subrange(0, len - start) =~= digits);
        assert(all_digits(digits));
    }
    if over {
        None
    } else if negative {
        if acc == 0x8000_0000 {
            Some(i32::MIN)
        } else {
            Some((-(acc as i32)) as i32)
        }
    } else {
        if acc == 0x8000_0000 {
            None
        } else {
            Some(acc as i32)
        }
    }
}

} // verus!
