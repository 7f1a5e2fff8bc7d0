use vstd::prelude::*;
use vstd::string::StringSliceAdditionalSpecFns;

verus! {

// ---------------------------------------------------------------------------
// Decimal integers
// ---------------------------------------------------------------------------

/// `c` is a decimal digit.
pub open spec fn is_digit(c: char) -> bool {
    48 <= c as int <= 57
}

/// The value of a run of decimal digit characters.
pub open spec fn digits_val(s: Seq<char>) -> int
    decreases s.len(),
{
    if s.len() == 0 {
        0
    } else {
        digits_val(s.drop_last()) * 10 + (s.last() as int - 48)
    }
}

/// `s` is one or more decimal digits.
pub open spec fn all_digits(s: Seq<char>) -> bool {
    s.len() > 0 && forall|i: int| 0 <= i < s.len() ==> is_digit(#[trigger] s[i])
}

/// The digits of a signed decimal string: everything after an optional sign.
pub open spec fn int_body(s: Seq<char>) -> Seq<char> {
    if s.len() > 0 && (s[0] as int == 45 || s[0] as int == 43) {
        s.drop_first()
    } else {
        s
    }
}

/// The string carries a leading minus sign.
pub open spec fn int_neg(s: Seq<char>) -> bool {
    s.len() > 0 && s[0] as int == 45
}

/// The value of a signed decimal string.
pub open spec fn str_int_val(s: Seq<char>) -> int {
    if int_neg(s) {
        -digits_val(int_body(s))
    } else {
        digits_val(int_body(s))
    }
}

/// `s` is an optional sign followed by digits, with a value in `i32` range.
pub open spec fn valid_i32_str(s: Seq<char>) -> bool {
    all_digits(int_body(s)) && i32::MIN <= str_int_val(s) <= i32::MAX
}

/// A digit run has a non-negative value, and every prefix value is bounded
/// by the whole value.
pub proof fn lemma_digits_nonneg(s: Seq<char>)
    requires
        forall|i: int| 0 <= i < s.len() ==> is_digit(#[trigger] s[i]),
    ensures
        digits_val(s) >= 0,
    decreases s.len(),
{
    if s.len() > 0 {
        lemma_digits_nonneg(s.drop_last());
    }
}

/// Extending a digit run by one digit multiplies the prefix value by ten and
/// adds the digit; the prefix value never exceeds the whole value.
pub proof fn lemma_digits_prefix(s: Seq<char>, j: int)
    requires
        forall|i: int| 0 <= i < s.len() ==> is_digit(#[trigger] s[i]),
        0 <= j <= s.len(),
    ensures
        digits_val(s.take(j)) >= 0,
        digits_val(s.take(j)) <= digits_val(s),
    decreases s.len() - j,
{
    lemma_digits_nonneg(s.take(j));
    if j < s.len() {
        lemma_digits_prefix(s, j + 1);
        assert(s.take(j + 1).drop_last() =~= s.take(j));
        assert(s.take(j + 1).last() == s[j]);
        assert(digits_val(s.take(j + 1)) == digits_val(s.take(j)) * 10 + (s[j] as int - 48));
    } else {
        assert(s.take(j) =~= s);
    }
}

/// The value of a signed decimal string, which must be a valid `i32`
/// literal: an optional sign, then digits, with the value in range.
pub fn parse_int(s: &str) -> (r: i32)
    requires
        valid_i32_str(s@),
    ensures
        r as int == str_int_val(s@),
{
    let n = s.unicode_len();
    let c0 = s.get_char(0);
    let neg = c0 == '-';
    let mut i: usize = if c0 == '-' || c0 == '+' {
        1
    } else {
        0
    };
    let ghost body = int_body(s@);
    let ghost off = i as int;
    proof {
        assert(body =~= s@.subrange(off, n as int));
        lemma_digits_prefix(body, body.len() as int);
    }
    let mut acc: i64 = 0;
    while i < n
        invariant
            n == s@.len(),
            valid_i32_str(s@),
            body == int_body(s@),
            off == if s@[0] as int == 45 || s@[0] as int == 43 {
                1int
            } else {
                0int
            },
            off <= i <= n,
            body =~= s@.subrange(off, n as int),
            acc as int == digits_val(body.take(i - off)),
            0 <= acc <= 0x8000_0000,
        decreases n - i,
    {
        let c = s.get_char(i);
        proof {
            assert(body[i - off] == s@[i as int]);
            assert(body.take(i - off + 1).drop_last() =~= body.take(i - off));
            assert(body.take(i - off + 1).last() == body[i - off]);
            lemma_digits_prefix(body, i - off + 1);
            assert(digits_val(body) <= 0x8000_0000) by {
                if int_neg(s@) {
                    assert(str_int_val(s@) == -digits_val(body));
                } else {
                    assert(str_int_val(s@) == digits_val(body));
                }
            }
        }
        let d = (c as u32) as i64 - 48;
        acc = acc * 10 + d;
        i = i + 1;
    }
    proof {
        assert(body.take(n - off) =~= body);
        if int_neg(s@) {
            assert(str_int_val(s@) == -digits_val(body));
        }
    }
    let v: i64 = if neg {
        -acc
    } else {
        acc
    };
    v as i32
}

/// The two comma-separated signed decimals of `s`, which must hold exactly
/// one comma with a valid `i32` literal on each side.
pub open spec fn tuple_str_ok(s: Seq<char>) -> bool {
    exists|i: int|
        0 <= i < s.len() && (#[trigger] s[i]) as int == 44 && (forall|j: int|
            0 <= j < s.len() && j != i ==> (#[trigger] s[j]) as int != 44) && valid_i32_str(
            s.take(i),
        ) && valid_i32_str(s.skip(i + 1))
}

/// The position of the single comma.
pub open spec fn comma_of(s: Seq<char>) -> int {
    choose|i: int| 0 <= i < s.len() && (#[trigger] s[i]) as int == 44
}

/// Splits `"x,y"` at its comma and parses both sides as `i32` values.
pub fn parse_tuple_int(s: &str) -> (r: (i32, i32))
    requires
        tuple_str_ok(s@),
    ensures
        r.0 as int == str_int_val(s@.take(comma_of(s@))),
        r.1 as int == str_int_val(s@.skip(comma_of(s@) + 1)),
{
    let n = s.unicode_len();
    let mut ci: usize = 0;
    let mut found = false;
    while !found && ci < n
        invariant
            n == s@.len(),
            tuple_str_ok(s@),
            ci <= n,
            forall|j: int| 0 <= j < ci ==> (#[trigger] s@[j]) as int != 44,
            found ==> ci < n && s@[ci as int] as int == 44,
        decreases
                n - ci,
                if found {
                    0int
                } else {
                    1int
                },
    {
        if s.get_char(ci) == ',' {
            found = true;
        } else {
            ci = ci + 1;
        }
    }
    proof {
        let w = choose|i: int|
            0 <= i < s@.len() && (#[trigger] s@[i]) as int == 44 && (forall|j: int|
                0 <= j < s@.len() && j != i ==> (#[trigger] s@[j]) as int != 44) && valid_i32_str(
                s@.take(i),
            ) && valid_i32_str(s@.skip(i + 1));
        assert(ci as int == w);
        assert(comma_of(s@) == w);
    }
    let left = s.substring_char(0, ci);
    let right = s.substring_char(ci + 1, n);
    proof {
        assert(left@ =~= s@.take(ci as int));
        assert(right@ =~= s@.skip(ci as int + 1));
    }
    (parse_int(left), parse_int(right))
}

// ---------------------------------------------------------------------------
// The node-description grammar
// ---------------------------------------------------------------------------

/// One parsed node description: its name, its reward rate, and the names of
/// its adjacent nodes.
pub struct RawNode {
    /// Uppercase-letter name.
    pub name: Vec<u8>,
    /// Reward rate.
    pub rate: u64,
    /// Names of the adjacent nodes.
    pub adjacent: Vec<Vec<u8>>,
}

/// `c` is an uppercase letter.
pub open spec fn is_upper(c: u8) -> bool {
    65 <= c <= 90
}

/// `c` is a decimal digit byte.
pub open spec fn is_digit8(c: u8) -> bool {
    48 <= c <= 57
}

/// The value of a run of decimal digit bytes.
pub open spec fn digits_val8(s: Seq<u8>) -> int
    decreases s.len(),
{
    if s.len() == 0 {
        0
    } else {
        digits_val8(s.drop_last()) * 10 + (s.last() - 48)
    }
}

/// The end of the run of uppercase letters starting at `i`.
pub open spec fn upper_end(l: Seq<u8>, i: int) -> int
    decreases l.len() - i,
{
    if 0 <= i < l.len() && is_upper(l[i]) {
        upper_end(l, i + 1)
    } else {
        i
    }
}

/// The end of the run of digit bytes starting at `i`.
pub open spec fn digit_end(l: Seq<u8>, i: int) -> int
    decreases l.len() - i,
{
    if 0 <= i < l.len() && is_digit8(l[i]) {
        digit_end(l, i + 1)
    } else {
        i
    }
}

/// The first newline at or after `i`, or the end of the text.
pub open spec fn line_end(l: Seq<u8>, i: int) -> int
    decreases l.len() - i,
{
    if 0 <= i < l.len() && l[i] != 10 {
        line_end(l, i + 1)
    } else {
        i
    }
}

/// The scan ends within the text, no earlier than where it began.
pub proof fn lemma_scan_bounds(l: Seq<u8>, i: int)
    requires
        0 <= i <= l.len(),
    ensures
        i <= upper_end(l, i) <= l.len(),
        i <= digit_end(l, i) <= l.len(),
        i <= line_end(l, i) <= l.len(),
    decreases l.len() - i,
{
    if i < l.len() {
        lemma_scan_bounds(l, i + 1);
    }
}

/// The bytes `p` occur in `l` at position `i`.
pub open spec fn match_at(l: Seq<u8>, i: int, p: Seq<u8>) -> bool {
    0 <= i && i + p.len() <= l.len() && l.subrange(i, i + p.len()) == p
}

/// The position after an optional plural `s`.
pub open spec fn opt_s(l: Seq<u8>, i: int) -> int {
    if 0 <= i < l.len() && l[i] == 115 {
        i + 1
    } else {
        i
    }
}

/// The comma-and-space separated run of names starting at `i`, reaching
/// exactly to the end of the line.
pub open spec fn parse_names(l: Seq<u8>, i: int) -> Option<Seq<Seq<u8>>>
    decreases l.len() - i,
    via parse_names_dec
{
    if !(0 <= i <= l.len()) {
        None
    } else {
        let e = upper_end(l, i);
        if e == i {
            None
        } else if e == l.len() {
            Some(seq![l.subrange(i, e)])
        } else if match_at(l, e, seq![44u8, 32u8]) {
            match parse_names(l, e + 2) {
                Some(t) => Some(seq![l.subrange(i, e)] + t),
                None => None,
            }
        } else {
            None
        }
    }
}

#[via_fn]
proof fn parse_names_dec(l: Seq<u8>, i: int) {
    if 0 <= i <= l.len() {
        lemma_scan_bounds(l, i);
    }
}

/// The leading literal of a node description.
pub open spec fn lit_head() -> Seq<u8> {
    seq![86u8, 97u8, 108u8, 118u8, 101u8, 32u8]
}

/// The literal between the name and the rate digits.
pub open spec fn lit_rate() -> Seq<u8> {
    seq![
        32u8,
        104u8,
        97u8,
        115u8,
        32u8,
        102u8,
        108u8,
        111u8,
        119u8,
        32u8,
        114u8,
        97u8,
        116u8,
        101u8,
        61u8,
    ]
}

/// The literal after the rate digits.
pub open spec fn lit_tunnel() -> Seq<u8> {
    seq![59u8, 32u8, 116u8, 117u8, 110u8, 110u8, 101u8, 108u8]
}

/// The next literal, after an optional plural `s`.
pub open spec fn lit_lead() -> Seq<u8> {
    seq![32u8, 108u8, 101u8, 97u8, 100u8]
}

/// The next literal, after an optional plural `s`.
pub open spec fn lit_to_valve() -> Seq<u8> {
    seq![32u8, 116u8, 111u8, 32u8, 118u8, 97u8, 108u8, 118u8, 101u8]
}

/// One line of the node-description grammar: the head literal, an uppercase
/// name, the rate literal, decimal digits, the connective literals with
/// optional plural letters, one space, and the adjacent names.
pub open spec fn parse_line(l: Seq<u8>) -> Option<(Seq<u8>, int, Seq<Seq<u8>>)> {
    if !match_at(l, 0, lit_head()) {
        None
    } else {
        let ne = upper_end(l, 6);
        if ne == 6 {
            None
        } else if !match_at(l, ne, lit_rate()) {
            None
        } else {
            let de = digit_end(l, ne + 15);
            if de == ne + 15 {
                None
            } else if digits_val8(l.subrange(ne + 15, de)) > u64::MAX {
                None
            } else if !match_at(l, de, lit_tunnel()) {
                None
            } else {
                let i3 = opt_s(l, de + 8);
                if !match_at(l, i3, lit_lead()) {
                    None
                } else {
                    let i4 = opt_s(l, i3 + 5);
                    if !match_at(l, i4, lit_to_valve()) {
                        None
                    } else {
                        let i5 = opt_s(l, i4 + 9);
                        if !match_at(l, i5, seq![32u8]) {
                            None
                        } else {
                            match parse_names(l, i5 + 1) {
                                Some(t) => Some(
                                    (l.subrange(6, ne), digits_val8(l.subrange(ne + 15, de)), t),
                                ),
                                None => None,
                            }
                        }
                    }
                }
            }
        }
    }
}

/// The node descriptions of the whole text from position `i` on: lines are
/// separated by newline bytes, empty lines are skipped, and every other line
/// must match the grammar.
pub open spec fn parse_text_from(s: Seq<u8>, i: int) -> Option<Seq<(Seq<u8>, int, Seq<Seq<u8>>)>>
    decreases s.len() - i,
    via parse_text_dec
{
    if !(0 <= i < s.len()) {
        Some(Seq::empty())
    } else {
        let e = line_end(s, i);
        if e == i {
            parse_text_from(s, i + 1)
        } else {
            match parse_line(s.subrange(i, e)) {
                None => None,
                Some(nd) => match parse_text_from(
                    s,
                    if e < s.len() {
                        e + 1
                    } else {
                        e
                    },
                ) {
                    Some(t) => Some(seq![nd] + t),
                    None => None,
                },
            }
        }
    }
}

#[via_fn]
proof fn parse_text_dec(s: Seq<u8>, i: int) {
    if 0 <= i < s.len() {
        lemma_scan_bounds(s, i);
    }
}

/// The node descriptions of the whole text.
pub open spec fn parse_text(s: Seq<u8>) -> Option<Seq<(Seq<u8>, int, Seq<Seq<u8>>)>> {
    parse_text_from(s, 0)
}

/// The parsed descriptions as their mathematical values.
pub open spec fn nodes_view(v: Seq<RawNode>) -> Seq<(Seq<u8>, int, Seq<Seq<u8>>)> {
    v.map_values(
        |n: RawNode| (n.name@, n.rate as int, n.adjacent@.map_values(|a: Vec<u8>| a@)),
    )
}

/// A digit-byte run has a non-negative value, and every prefix value is
/// bounded by the whole value.
pub proof fn lemma_digits8_prefix(s: Seq<u8>, j: int)
    requires
        forall|i: int| 0 <= i < s.len() ==> is_digit8(#[trigger] s[i]),
        0 <= j <= s.len(),
    ensures
        digits_val8(s.take(j)) >= 0,
        digits_val8(s.take(j)) <= digits_val8(s),
    decreases s.len() - j,
{
    lemma_digits8_nonneg(s.take(j));
    if j < s.len() {
        lemma_digits8_prefix(s, j + 1);
        assert(s.take(j + 1).drop_last() =~= s.take(j));
        assert(s.take(j + 1).last() == s[j]);
        assert(digits_val8(s.take(j + 1)) == digits_val8(s.take(j)) * 10 + (s[j] - 48));
    } else {
        assert(s.take(j) =~= s);
    }
}

/// A digit-byte run has a non-negative value.
pub proof fn lemma_digits8_nonneg(s: Seq<u8>)
    requires
        forall|i: int| 0 <= i < s.len() ==> is_digit8(#[trigger] s[i]),
    ensures
        digits_val8(s) >= 0,
    decreases s.len(),
{
    if s.len() > 0 {
        lemma_digits8_nonneg(s.drop_last());
    }
}

fn upper_end_exec(l: &Vec<u8>, i: usize) -> (e: usize)
    requires
        i <= l@.len(),
    ensures
        e as int == upper_end(l@, i as int),
        i <= e <= l@.len(),
{
    let mut e = i;
    let n = l.len();
    while e < n && l[e] >= 65 && l[e] <= 90
        invariant
            n == l@.len(),
            i <= e <= n,
            upper_end(l@, i as int) == upper_end(l@, e as int),
        decreases n - e,
    {
        e = e + 1;
    }
    e
}

fn digit_end_exec(l: &Vec<u8>, i: usize) -> (e: usize)
    requires
        i <= l@.len(),
    ensures
        e as int == digit_end(l@, i as int),
        i <= e <= l@.len(),
{
    let mut e = i;
    let n = l.len();
    while e < n && l[e] >= 48 && l[e] <= 57
        invariant
            n == l@.len(),
            i <= e <= n,
            digit_end(l@, i as int) == digit_end(l@, e as int),
        decreases n - e,
    {
        e = e + 1;
    }
    e
}

fn line_end_exec(l: &Vec<u8>, i: usize) -> (e: usize)
    requires
        i <= l@.len(),
    ensures
        e as int == line_end(l@, i as int),
        i <= e <= l@.len(),
{
    let mut e = i;
    let n = l.len();
    while e < n && l[e] != 10
        invariant
            n == l@.len(),
            i <= e <= n,
            line_end(l@, i as int) == line_end(l@, e as int),
        decreases n - e,
    {
        e = e + 1;
    }
    e
}

/// The bytes `pat` occur in `l` at position `i`.
fn match_lit(l: &Vec<u8>, i: usize, pat: &Vec<u8>) -> (r: bool)
    ensures
        r == match_at(l@, i as int, pat@),
{
    let n = l.len();
    let m = pat.len();
    if n < m || i > n - m {
        proof {
            assert(!match_at(l@, i as int, pat@));
        }
        return false;
    }
    for j in 0..m
        invariant
            n == l@.len(),
            m == pat@.len(),
            i + m <= n,
            forall|q: int| 0 <= q < j ==> l@[i + q] == pat@[q],
    {
        if l[i + j] != pat[j] {
            proof {
                assert(l@.subrange(i as int, i + m) != pat@) by {
                    assert(l@.subrange(i as int, i + m)[j as int] == l@[i + j]);
                }
            }
            return false;
        }
    }
    proof {
        assert(l@.subrange(i as int, i + m) =~= pat@);
    }
    true
}

fn opt_s_exec(l: &Vec<u8>, i: usize) -> (e: usize)
    ensures
        e as int == opt_s(l@, i as int),
{
    if i < l.len() && l[i] == 115 {
        i + 1
    } else {
        i
    }
}

/// The bytes of `l` between `a` and `b`.
fn copy_range(l: &Vec<u8>, a: usize, b: usize) -> (r: Vec<u8>)
    requires
        a <= b <= l@.len(),
    ensures
        r@ == l@.subrange(a as int, b as int),
{
    let mut r: Vec<u8> = Vec::new();
    for j in a..b
        invariant
            a <= b <= l@.len(),
            r@.len() == j - a,
            forall|q: int| 0 <= q < r@.len() ==> r@[q] == l@[a + q],
    {
        r.push(l[j]);
    }
    proof {
        assert(r@ =~= l@.subrange(a as int, b as int));
    }
    r
}

/// Prepending already-parsed names to the result of parsing the rest.
pub open spec fn opt_prepend(pre: Seq<Seq<u8>>, o: Option<Seq<Seq<u8>>>) -> Option<Seq<Seq<u8>>> {
    match o {
        Some(t) => Some(pre + t),
        None => None,
    }
}

/// Parses the comma-and-space separated names from `i0` to the line's end.
fn parse_names_exec(l: &Vec<u8>, i0: usize) -> (r: Option<Vec<Vec<u8>>>)
    requires
        i0 <= l@.len(),
    ensures
        (r is Some) <==> (parse_names(l@, i0 as int) is Some),
        r matches Some(v) ==> parse_names(l@, i0 as int) == Some(
            v@.map_values(|a: Vec<u8>| a@),
        ),
{
    let mut acc: Vec<Vec<u8>> = Vec::new();
    let mut i = i0;
    let n = l.len();
    let ghost goal = parse_names(l@, i0 as int);
    loop
        invariant
            n == l@.len(),
            i0 <= i <= n,
            goal == parse_names(l@, i0 as int),
            goal == opt_prepend(acc@.map_values(|a: Vec<u8>| a@), parse_names(l@, i as int)),
        decreases n - i,
    {
        let ghost accv0 = acc@.map_values(|a: Vec<u8>| a@);
        let e = upper_end_exec(l, i);
        if e == i {
            return None;
        }
        let name = copy_range(l, i, e);
        let ghost nseq = l@.subrange(i as int, e as int);
        if e == n {
            acc.push(name);
            proof {
                assert(parse_names(l@, i as int) == Some(seq![nseq]));
                let accv = acc@.map_values(|a: Vec<u8>| a@);
                assert(accv =~= accv0.push(nseq));
                assert(accv0 + seq![nseq] =~= accv0.push(nseq));
                assert(goal == Some(accv));
            }
            return Some(acc);
        }
        let mut sep: Vec<u8> = Vec::new();
        sep.push(44);
        sep.push(32);
        proof {
            assert(sep@ =~= seq![44u8, 32u8]);
        }
        if !match_lit(l, e, &sep) {
            return None;
        }
        acc.push(name);
        proof {
            let accv = acc@.map_values(|a: Vec<u8>| a@);
            assert(accv =~= accv0.push(nseq));
            if parse_names(l@, e as int + 2) is Some {
                let t = parse_names(l@, e as int + 2)->Some_0;
                assert(parse_names(l@, i as int) == Some(seq![nseq] + t));
                assert(accv0 + (seq![nseq] + t) =~= accv + t);
            } else {
                assert(parse_names(l@, i as int) is None);
            }
        }
        i = e + 2;
    }
}

/// Every byte of a digit scan is a digit.
proof fn lemma_digit_run(l: Seq<u8>, i: int)
    requires
        0 <= i <= l.len(),
    ensures
        forall|j: int| i <= j < digit_end(l, i) ==> is_digit8(#[trigger] l[j]),
    decreases l.len() - i,
{
    if i < l.len() && is_digit8(l[i]) {
        lemma_digit_run(l, i + 1);
    }
}

/// Parses one line of the node-description grammar.
fn parse_line_exec(l: &Vec<u8>) -> (r: Option<RawNode>)
    ensures
        (r is Some) <==> (parse_line(l@) is Some),
        r matches Some(nd) ==> parse_line(l@) == Some(
            (nd.name@, nd.rate as int, nd.adjacent@.map_values(|a: Vec<u8>| a@)),
        ),
{
    proof {
        assert(l.len() as int == l@.len());
    }
    let lhead: Vec<u8> = vec![86u8, 97u8, 108u8, 118u8, 101u8, 32u8];
    proof {
        assert(lhead@ =~= lit_head());
    }
    if !match_lit(l, 0, &lhead) {
        return None;
    }
    let ne = upper_end_exec(l, 6);
    if ne == 6 {
        return None;
    }
    let name = copy_range(l, 6, ne);
    let lrate: Vec<u8> = vec![
        32u8,
        104u8,
        97u8,
        115u8,
        32u8,
        102u8,
        108u8,
        111u8,
        119u8,
        32u8,
        114u8,
        97u8,
        116u8,
        101u8,
        61u8,
    ];
    proof {
        assert(lrate@ =~= lit_rate());
    }
    if !match_lit(l, ne, &lrate) {
        return None;
    }
    let ds = ne + 15;
    let de = digit_end_exec(l, ds);
    if de == ds {
        return None;
    }
    let ghost dseq = l@.subrange(ds as int, de as int);
    proof {
        lemma_digit_run(l@, ds as int);
        assert(forall|q: int| 0 <= q < dseq.len() ==> is_digit8(#[trigger] dseq[q]));
    }
    let mut acc: u64 = 0;
    let mut j = ds;
    while j < de
        invariant
            ds <= j <= de <= l@.len(),
            dseq == l@.subrange(ds as int, de as int),
            forall|q: int| 0 <= q < dseq.len() ==> is_digit8(#[trigger] dseq[q]),
            forall|q: int| ds <= q < de ==> is_digit8(#[trigger] l@[q]),
            acc as int == digits_val8(dseq.take(j - ds)),
            match_at(l@, 0, lit_head()),
            ne as int == upper_end(l@, 6),
            ne != 6,
            match_at(l@, ne as int, lit_rate()),
            ds == ne + 15,
            de as int == digit_end(l@, ds as int),
            de != ds,
        decreases de - j,
    {
        let d = (l[j] - 48) as u64;
        proof {
            assert(dseq[j - ds] == l@[j as int]);
            assert(dseq.take(j - ds + 1).drop_last() =~= dseq.take(j - ds));
            assert(dseq.take(j - ds + 1).last() == dseq[j - ds]);
            lemma_digits8_prefix(dseq, j - ds + 1);
        }
        if acc > 1844674407370955161u64 || (acc == 1844674407370955161u64 && d > 5) {
            proof {
                assert(digits_val8(dseq.take(j - ds + 1)) > u64::MAX);
                assert(digits_val8(dseq) > u64::MAX);
                assert(l@.subrange(upper_end(l@, 6) + 15, digit_end(l@, upper_end(l@, 6) + 15))
                    == dseq);
                assert(parse_line(l@) is None);
            }
            return None;
        }
        acc = acc * 10 + d;
        j = j + 1;
    }
    proof {
        assert(dseq.take(de - ds) =~= dseq);
    }
    let ltun: Vec<u8> = vec![59u8, 32u8, 116u8, 117u8, 110u8, 110u8, 101u8, 108u8];
    proof {
        assert(ltun@ =~= lit_tunnel());
    }
    if !match_lit(l, de, &ltun) {
        return None;
    }
    let i3 = opt_s_exec(l, de + 8);
    let llead: Vec<u8> = vec![32u8, 108u8, 101u8, 97u8, 100u8];
    proof {
        assert(llead@ =~= lit_lead());
    }
    if !match_lit(l, i3, &llead) {
        return None;
    }
    let i4 = opt_s_exec(l, i3 + 5);
    let ltov: Vec<u8> = vec![32u8, 116u8, 111u8, 32u8, 118u8, 97u8, 108u8, 118u8, 101u8];
    proof {
        assert(ltov@ =~= lit_to_valve());
    }
    if !match_lit(l, i4, &ltov) {
        return None;
    }
    let i5 = opt_s_exec(l, i4 + 9);
    let lsp: Vec<u8> = vec![32u8];
    proof {
        assert(lsp@ =~= seq![32u8]);
    }
    if !match_lit(l, i5, &lsp) {
        return None;
    }
    match parse_names_exec(l, i5 + 1) {
        None => None,
        Some(names) => Some(RawNode { name, rate: acc, adjacent: names }),
    }
}

/// Prepending already-parsed descriptions to the result of parsing the rest.
pub open spec fn opt_prepend_nodes(
    pre: Seq<(Seq<u8>, int, Seq<Seq<u8>>)>,
    o: Option<Seq<(Seq<u8>, int, Seq<Seq<u8>>)>>,
) -> Option<Seq<(Seq<u8>, int, Seq<Seq<u8>>)>> {
    match o {
        Some(t) => Some(pre + t),
        None => None,
    }
}

/// Parses a whole node-description text: one node per non-empty line, lines
/// separated by newline bytes. Returns `None` exactly when some non-empty
/// line does not match the grammar.
pub fn parse(input: &str) -> (r: Option<Vec<RawNode>>)
    ensures
        (r is Some) <==> (parse_text(input.spec_bytes()) is Some),
        r matches Some(v) ==> parse_text(input.spec_bytes()) == Some(nodes_view(v@)),
{
    let bv = vstd::slice::slice_to_vec(input.as_bytes());
    let n = bv.len();
    let mut acc: Vec<RawNode> = Vec::new();
    let mut i: usize = 0;
    let ghost goal = parse_text(input.spec_bytes());
    while i < n
        invariant
            n == bv@.len(),
            bv@ == input.spec_bytes(),
            i <= n,
            goal == parse_text(input.spec_bytes()),
            goal == opt_prepend_nodes(nodes_view(acc@), parse_text_from(bv@, i as int)),
        decreases n - i,
    {
        let ghost accv0 = nodes_view(acc@);
        let e = line_end_exec(&bv, i);
        if e == i {
            i = i + 1;
        } else {
            let line = copy_range(&bv, i, e);
            match parse_line_exec(&line) {
                None => {
                    proof {
                        assert(parse_text_from(bv@, i as int) is None);
                    }
                    return None;
                },
                Some(nd) => {
                    let ghost nv = (
                        nd.name@,
                        nd.rate as int,
                        nd.adjacent@.map_values(|a: Vec<u8>| a@),
                    );
                    acc.push(nd);
                    proof {
                        let accv = nodes_view(acc@);
                        assert(accv =~= accv0.push(nv));
                        let next = if e < n {
                            e as int + 1
                        } else {
                            e as int
                        };
                        if parse_text_from(bv@, next) is Some {
                            let t = parse_text_from(bv@, next)->Some_0;
                            assert(parse_text_from(bv@, i as int) == Some(seq![nv] + t));
                            assert(accv0 + (seq![nv] + t) =~= accv + t);
                        } else {
                            assert(parse_text_from(bv@, i as int) is None);
                        }
                    }
                    i = if e < n {
                        e + 1
                    } else {
                        e
                    };
                },
            }
        }
    }
    proof {
        assert(parse_text_from(bv@, i as int) == Some(Seq::<(Seq<u8>, int, Seq<Seq<u8>>)>::empty()));
        assert(nodes_view(acc@) + Seq::<(Seq<u8>, int, Seq<Seq<u8>>)>::empty() =~= nodes_view(
            acc@,
        ));
    }
    Some(acc)
}

// ---------------------------------------------------------------------------
// Resolving names to node indices
// ---------------------------------------------------------------------------

/// Whether two byte strings hold the same bytes.
fn bytes_eq(a: &Vec<u8>, b: &Vec<u8>) -> (r: bool)
    ensures
        r <==> a@ == b@,
{
    if a.len() != b.len() {
        return false;
    }
    let n = a.len();
    for i in 0..n
        invariant
            n == a@.len(),
            n == b@.len(),
            forall|q: int| 0 <= q < i ==> a@[q] == b@[q],
    {
        if a[i] != b[i] {
            return false;
        }
    }
    proof {
        assert(a@ =~= b@);
    }
    true
}

/// The first index at or after `i` of the node named `nm`, or the node count
/// when no node has that name.
pub open spec fn name_idx_from(ns: Seq<RawNode>, nm: Seq<u8>, i: int) -> int
    decreases ns.len() - i,
{
    if !(0 <= i < ns.len()) {
        ns.len() as int
    } else if ns[i].name@ == nm {
        i
    } else {
        name_idx_from(ns, nm, i + 1)
    }
}

/// The index of the first node named `nm`, or the node count when absent.
pub open spec fn name_idx(ns: Seq<RawNode>, nm: Seq<u8>) -> int {
    name_idx_from(ns, nm, 0)
}

/// The designated start node's name.
pub open spec fn start_name() -> Seq<u8> {
    seq![65u8, 65u8]
}

/// The index of the first node named `nm`, or the node count when absent.
fn find_name(nodes: &Vec<RawNode>, nm: &Vec<u8>) -> (r: usize)
    ensures
        r as int == name_idx(nodes@, nm@),
        r <= nodes@.len(),
{
    let n = nodes.len();
    let mut i: usize = 0;
    while i < n
        invariant
            n == nodes@.len(),
            i <= n,
            name_idx(nodes@, nm@) == name_idx_from(nodes@, nm@, i as int),
        decreases n - i,
    {
        if bytes_eq(&nodes[i].name, nm) {
            return i;
        }
        i = i + 1;
    }
    n
}

/// Every adjacency reference of every description resolves to a described
/// node, and some node bears the start name.
pub open spec fn names_resolve(ns: Seq<RawNode>) -> bool {
    &&& name_idx(ns, start_name()) < ns.len()
    &&& forall|i: int, j: int|
        0 <= i < ns.len() && 0 <= j < ns[i].adjacent@.len() ==> name_idx(
            ns,
            (#[trigger] ns[i].adjacent@[j])@,
        ) < ns.len()
}

/// Builds the graph and its start index from parsed node descriptions,
/// resolving names to indices in description order. Returns `None` exactly
/// when an adjacency name or the start name resolves to no node.
pub fn build_graph(nodes: &Vec<RawNode>) -> (r: Option<(crate::graph::Graph, usize)>)
    ensures
        (r is Some) <==> names_resolve(nodes@),
        r matches Some(p) ==> {
            &&& p.0.wf()
            &&& p.0.n() == nodes@.len()
            &&& (p.1 as int) == name_idx(nodes@, start_name())
            &&& (p.1 as int) < nodes@.len()
            &&& forall|i: int| 0 <= i < nodes@.len() ==> p.0.rate(i) == nodes@[i].rate
            &&& forall|i: int|
                0 <= i < nodes@.len() ==> (#[trigger] p.0.adj_of(i)).len()
                    == nodes@[i].adjacent@.len()
            &&& forall|i: int, j: int|
                0 <= i < nodes@.len() && 0 <= j < nodes@[i].adjacent@.len()
                    ==> (#[trigger] p.0.adj_of(i)[j]) as int == name_idx(
                    nodes@,
                    nodes@[i].adjacent@[j]@,
                )
        },
{
    let n = nodes.len();
    let mut start_nm: Vec<u8> = Vec::new();
    start_nm.push(65);
    start_nm.push(65);
    proof {
        assert(start_nm@ =~= start_name());
    }
    let start = find_name(nodes, &start_nm);
    if start >= n {
        return None;
    }
    let mut rates: Vec<u64> = Vec::new();
    let mut adj: Vec<Vec<usize>> = Vec::new();
    for i in 0..n
        invariant
            n == nodes@.len(),
            rates@.len() == i,
            adj@.len() == i,
            forall|q: int| 0 <= q < i ==> (#[trigger] rates@[q]) == nodes@[q].rate,
            forall|q: int|
                0 <= q < i ==> (#[trigger] adj@[q])@.len() == nodes@[q].adjacent@.len(),
            forall|q: int, w: int|
                0 <= q < i && 0 <= w < nodes@[q].adjacent@.len() ==> (#[trigger] adj@[q]@[w]) as int
                    == name_idx(nodes@, nodes@[q].adjacent@[w]@) && (adj@[q]@[w] as int) < n,
    {
        rates.push(nodes[i].rate);
        let alen = nodes[i].adjacent.len();
        let mut row: Vec<usize> = Vec::new();
        for j in 0..alen
            invariant
                n == nodes@.len(),
                i < n,
                alen == nodes@[i as int].adjacent@.len(),
                row@.len() == j,
                forall|w: int|
                    0 <= w < j ==> (#[trigger] row@[w]) as int == name_idx(
                        nodes@,
                        nodes@[i as int].adjacent@[w]@,
                    ) && (row@[w] as int) < n,
        {
            let t = find_name(nodes, &nodes[i].adjacent[j]);
            if t >= n {
                return None;
            }
            row.push(t);
        }
        adj.push(row);
    }
    let g = crate::graph::Graph { rates, adj };
    proof {
        assert(g.wf());
        assert forall|i: int, j: int|
            0 <= i < nodes@.len() && 0 <= j < nodes@[i].adjacent@.len() implies name_idx(
            nodes@,
            (#[trigger] nodes@[i].adjacent@[j])@,
        ) < nodes@.len() by {
            assert((g.adj_of(i)[j] as int) == name_idx(nodes@, nodes@[i].adjacent@[j]@));
        }
        assert(names_resolve(nodes@));
    }
    Some((g, start))
}

} // verus!
