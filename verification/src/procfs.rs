//! Reading the text of the kernel's per-process files (`/proc/<pid>/stat`,
//! `/proc/<pid>/status`, `/proc/meminfo`): fields split at whitespace,
//! decimal numbers, and `Label: value` lines.

use crate::text::{chars_of, lemma_span_until, lemma_span_until_bound, span_until};
use vstd::prelude::*;

verus! {

/// Whether `c` is white space in the sense of Unicode (as `char::is_whitespace`
/// has it).
pub open spec fn is_space(c: char) -> bool {
    ||| ('\t' <= c && c <= '\r')
    ||| c == ' '
    ||| c == '\u{85}'
    ||| c == '\u{a0}'
    ||| c == '\u{1680}'
    ||| ('\u{2000}' <= c && c <= '\u{200a}')
    ||| c == '\u{2028}'
    ||| c == '\u{2029}'
    ||| c == '\u{202f}'
    ||| c == '\u{205f}'
    ||| c == '\u{3000}'
}

/// Whether `c` is white space (see [`is_space`]).
pub fn char_is_space(c: char) -> (r: bool)
    ensures
        r == is_space(c),
{
    ('\t' <= c && c <= '\r') || c == ' ' || c == '\u{85}' || c == '\u{a0}' || c == '\u{1680}' || (
    '\u{2000}' <= c && c <= '\u{200a}') || c == '\u{2028}' || c == '\u{2029}' || c == '\u{202f}' || c
        == '\u{205f}' || c == '\u{3000}'
}

/// The fields of `s`: its longest runs of characters that are not white
/// space, in order (what `str::split_whitespace` yields).
pub open spec fn fields(s: Seq<char>) -> Seq<Seq<char>>
    decreases s.len(),
{
    if s.len() == 0 {
        Seq::empty()
    } else if is_space(s.last()) {
        fields(s.drop_last())
    } else if s.len() == 1 || is_space(s[s.len() - 2]) {
        fields(s.drop_last()).push(seq![s.last()])
    } else {
        let f = fields(s.drop_last());
        f.update(f.len() - 1, f.last().push(s.last()))
    }
}

/// The fields of `s`, as slices of it (see [`fields`]).
pub fn split_fields(s: &str) -> (r: Vec<&str>)
    ensures
        r@.map_values(|t: &str| t@) == fields(s@),
{
    let cs = chars_of(s);
    let n = cs.len();
    let mut out: Vec<&str> = Vec::new();
    let mut start: usize = 0;
    let mut in_field = false;
    let mut i: usize = 0;
    proof {
        assert(cs@.take(0) =~= Seq::<char>::empty());
    }
    while i < n
        invariant
            n == cs@.len(),
            cs@ == s@,
            i <= n,
            start <= i,
            in_field <==> (i > 0 && !is_space(cs@[i - 1])),
            in_field ==> out@.map_values(|t: &str| t@).push(cs@.subrange(start as int, i as int)) == fields(
                cs@.take(i as int),
            ),
            !in_field ==> out@.map_values(|t: &str| t@) == fields(cs@.take(i as int)),
        decreases n - i,
    {
        let c = cs[i];
        let ghost pre = cs@.take(i as int);
        proof {
            assert(cs@.take(i + 1).drop_last() =~= pre);
            assert(cs@.take(i + 1).last() == c);
            if i > 0 {
                assert(cs@.take(i + 1)[i - 1] == cs@[i - 1]);
            }
        }
        if char_is_space(c) {
            if in_field {
                let ghost before = out@;
                out.push(s.substring_char(start, i));
                proof {
                    assert(out@.map_values(|t: &str| t@) =~= before.map_values(|t: &str| t@).push(
                        cs@.subrange(start as int, i as int),
                    ));
                }
            }
            in_field = false;
        } else {
            if !in_field {
                start = i;
                proof {
                    assert(cs@.subrange(i as int, i + 1) =~= seq![c]);
                }
            } else {
                proof {
                    let f = fields(pre);
                    assert(f.last() == cs@.subrange(start as int, i as int));
                    assert(cs@.subrange(start as int, i + 1) =~= cs@.subrange(start as int, i as int).push(c));
                    assert(f.update(f.len() - 1, f.last().push(c)) =~= out@.map_values(|t: &str| t@).push(
                        cs@.subrange(start as int, i + 1),
                    ));
                }
            }
            in_field = true;
        }
        i = i + 1;
    }
    proof {
        assert(cs@.take(n as int) =~= cs@);
    }
    if in_field {
        let ghost before = out@;
        out.push(s.substring_char(start, n));
        proof {
            assert(out@.map_values(|t: &str| t@) =~= before.map_values(|t: &str| t@).push(
                cs@.subrange(start as int, n as int),
            ));
        }
    }
    out
}

/// Whether `c` is an ASCII decimal digit.
pub open spec fn is_digit(c: char) -> bool {
    '0' <= c && c <= '9'
}

/// The value of the decimal digits `s` (most significant first).
pub open spec fn digits_value(s: Seq<char>) -> nat
    decreases s.len(),
{
    if s.len() == 0 {
        0
    } else {
        digits_value(s.drop_last()) * 10 + ((s.last() as nat) - 48) as nat
    }
}

/// Whether every character of `s` is a decimal digit.
pub open spec fn all_digits(s: Seq<char>) -> bool {
    forall|i: int| 0 <= i < s.len() ==> is_digit(#[trigger] s[i])
}

/// `s` without one leading `+`, if it has one.
pub open spec fn unsigned_part(s: Seq<char>) -> Seq<char> {
    if s.len() > 0 && s[0] == '+' {
        s.skip(1)
    } else {
        s
    }
}

/// The number that `s` spells as `u64` reads it from text: an optional `+`
/// and then one or more decimal digits, of a value that fits; `None` for
/// anything else.
pub open spec fn parse_decimal(s: Seq<char>) -> Option<u64> {
    let d = unsigned_part(s);
    if d.len() > 0 && all_digits(d) && digits_value(d) <= u64::MAX {
        Some(digits_value(d) as u64)
    } else {
        None
    }
}

/// A longer run of digits is worth at least as much as its beginning.
proof fn lemma_digits_grow(s: Seq<char>, j: int)
    requires
        all_digits(s),
        0 <= j <= s.len(),
    ensures
        digits_value(s) >= digits_value(s.take(j)),
    decreases s.len(),
{
    if j < s.len() {
        assert(all_digits(s.drop_last()));
        lemma_digits_grow(s.drop_last(), j);
        assert(s.drop_last().take(j) =~= s.take(j));
    } else {
        assert(s.take(j) =~= s);
    }
}

/// The number that `s` spells (see [`parse_decimal`]).
pub fn parse_u64(s: &str) -> (r: Option<u64>)
    ensures
        r == parse_decimal(s@),
{
    let cs = chars_of(s);
    let n = cs.len();
    let k: usize = if n > 0 && cs[0] == '+' { 1 } else { 0 };
    let ghost d = unsigned_part(cs@);
    proof {
        assert(d =~= cs@.subrange(k as int, n as int));
    }
    if k == n {
        return None;
    }
    let mut v: u64 = 0;
    let mut i: usize = k;
    proof {
        assert(d.take(0) =~= Seq::<char>::empty());
    }
    while i < n
        invariant
            cs@ == s@,
            n == cs@.len(),
            k <= i <= n,
            d == cs@.subrange(k as int, n as int),
            d == unsigned_part(s@),
            all_digits(d.take(i - k)),
            v == digits_value(d.take(i - k)),
        decreases n - i,
    {
        let c = cs[i];
        let ghost t = d.take(i - k + 1);
        proof {
            assert(t.drop_last() =~= d.take(i - k));
            assert(t.last() == c);
        }
        if !('0' <= c && c <= '9') {
            proof {
                assert(!is_digit(d[i - k]));
                assert(!all_digits(d));
            }
            return None;
        }
        let digit = (c as u32 - 48) as u64;
        let next = match v.checked_mul(10) {
            Some(m) => m.checked_add(digit),
            None => None,
        };
        match next {
            Some(w) => {
                v = w;
            },
            None => {
                proof {
                    assert(digits_value(t) > u64::MAX);
                    if all_digits(d) {
                        lemma_digits_grow(d, i - k + 1);
                    }
                }
                return None;
            },
        }
        proof {
            assert(all_digits(t)) by {
                assert forall|j: int| 0 <= j < t.len() implies is_digit(#[trigger] t[j]) by {
                    if j < t.len() - 1 {
                        assert(t[j] == d.take(i - k)[j]);
                    }
                }
            }
        }
        i = i + 1;
    }
    proof {
        assert(d.take(n - k) =~= d);
    }
    Some(v)
}

/// Whether `c` is a round bracket.
pub open spec fn is_paren(c: char) -> bool {
    c == '(' || c == ')'
}

/// `s` without its leading and trailing round brackets (what
/// `str::trim_matches` with `(` and `)` gives).
pub open spec fn trim_parens(s: Seq<char>) -> Seq<char>
    decreases s.len(),
{
    if s.len() > 0 && is_paren(s[0]) {
        trim_parens(s.skip(1))
    } else if s.len() > 0 && is_paren(s.last()) {
        trim_parens(s.drop_last())
    } else {
        s
    }
}

/// `s` without its leading and trailing round brackets (see [`trim_parens`]).
pub fn strip_parens(s: &str) -> (r: &str)
    ensures
        r@ == trim_parens(s@),
{
    let cs = chars_of(s);
    let n = cs.len();
    let mut a: usize = 0;
    proof {
        assert(cs@.subrange(0, n as int) =~= cs@);
    }
    while a < n && (cs[a] == '(' || cs[a] == ')')
        invariant
            cs@ == s@,
            n == cs@.len(),
            a <= n,
            trim_parens(cs@) == trim_parens(cs@.subrange(a as int, n as int)),
        decreases n - a,
    {
        proof {
            assert(cs@.subrange(a as int, n as int).skip(1) =~= cs@.subrange(a + 1, n as int));
        }
        a = a + 1;
    }
    let mut b: usize = n;
    proof {
        assert(a < n ==> !is_paren(cs@[a as int]));
    }
    while b > a && (cs[b - 1] == '(' || cs[b - 1] == ')')
        invariant
            cs@ == s@,
            n == cs@.len(),
            a <= b <= n,
            a < n ==> !is_paren(cs@[a as int]),
            trim_parens(cs@) == trim_parens(cs@.subrange(a as int, b as int)),
        decreases b - a,
    {
        proof {
            let t = cs@.subrange(a as int, b as int);
            assert(t.drop_last() =~= cs@.subrange(a as int, b - 1));
            assert(t[0] == cs@[a as int]);
        }
        b = b - 1;
    }
    proof {
        let t = cs@.subrange(a as int, b as int);
        if t.len() > 0 {
            assert(t[0] == cs@[a as int]);
            assert(t.last() == cs@[b - 1]);
        }
    }
    s.substring_char(a, b)
}

/// Whether `s` begins with `p`.
pub open spec fn starts_with(s: Seq<char>, p: Seq<char>) -> bool {
    p.len() <= s.len() && s.take(p.len() as int) == p
}

/// The first line of `s` (lines end at newlines) that begins with `label`.
pub open spec fn first_line_with(s: Seq<char>, label: Seq<char>) -> Option<Seq<char>>
    decreases s.len(),
{
    let e = span_until(s, '\n');
    if starts_with(s.take(e as int), label) {
        Some(s.take(e as int))
    } else if e >= s.len() {
        None
    } else {
        proof {
            lemma_span_until_bound(s, '\n');
        }
        first_line_with(s.skip(e + 1 as int), label)
    }
}

/// The number after the label on the first line of `s` that begins with
/// `label` (the line's second field), if there is such a line and that field
/// is a number.
pub open spec fn labelled_value(s: Seq<char>, label: Seq<char>) -> Option<u64> {
    match first_line_with(s, label) {
        Some(line) => if fields(line).len() >= 2 {
            parse_decimal(fields(line)[1])
        } else {
            None
        },
        None => None,
    }
}

/// The number after `label` in `content` (see [`labelled_value`]), such as
/// the `VmRSS:` line of a status file.
pub fn labelled_number(content: &str, label: &str) -> (r: Option<u64>)
    ensures
        r == labelled_value(content@, label@),
{
    let cs = chars_of(content);
    let ls = chars_of(label);
    let n = cs.len();
    let m = ls.len();
    let mut pos: usize = 0;
    proof {
        assert(cs@.skip(0) =~= cs@);
    }
    loop
        invariant
            cs@ == content@,
            ls@ == label@,
            n == cs@.len(),
            m == ls@.len(),
            pos <= n,
            first_line_with(cs@, ls@) == first_line_with(cs@.skip(pos as int), ls@),
        decreases n - pos,
    {
        let ghost rest = cs@.skip(pos as int);
        let mut e: usize = pos;
        while e < n && cs[e] != '\n'
            invariant
                n == cs@.len(),
                pos <= e <= n,
                rest == cs@.skip(pos as int),
                forall|k: int| pos <= k < e ==> cs@[k] != '\n',
            decreases n - e,
        {
            e = e + 1;
        }
        proof {
            assert forall|k: int| 0 <= k < e - pos implies rest[k] != '\n' by {
                assert(rest[k] == cs@[pos + k]);
            }
            if e < n {
                assert(rest[e - pos] == cs@[e as int]);
            }
            lemma_span_until(rest, '\n', e - pos);
            assert(rest.take(e - pos) =~= cs@.subrange(pos as int, e as int));
        }
        let mut prefix = m <= e - pos;
        let mut j: usize = 0;
        while prefix && j < m
            invariant
                n == cs@.len(),
                m == ls@.len(),
                pos <= e <= n,
                j <= m,
                prefix ==> m <= e - pos,
                prefix ==> forall|q: int| 0 <= q < j ==> cs@[pos + q] == ls@[q],
                !prefix ==> !starts_with(cs@.subrange(pos as int, e as int), ls@),
            decreases m - j,
        {
            if cs[pos + j] != ls[j] {
                prefix = false;
                proof {
                    let line = cs@.subrange(pos as int, e as int);
                    assert(line.take(m as int)[j as int] == cs@[pos + j]);
                }
                j = m;
            } else {
                j = j + 1;
            }
        }
        proof {
            let line = cs@.subrange(pos as int, e as int);
            if prefix {
                assert(line.take(m as int) =~= ls@);
            }
        }
        if prefix {
            let line = content.substring_char(pos, e);
            let fs = split_fields(line);
            proof {
                assert(fs@.map_values(|t: &str| t@).len() == fs@.len());
            }
            if fs.len() >= 2 {
                proof {
                    assert(fs@.map_values(|t: &str| t@)[1] == fs@[1]@);
                }
                return parse_u64(fs[1]);
            } else {
                return None;
            }
        }
        if e >= n {
            return None;
        }
        proof {
            assert(rest.skip(e - pos + 1) =~= cs@.skip(e + 1));
        }
        pos = e + 1;
    }
}

/// Field `i` of `fields` read as a number, or 0 when there is no such field
/// or it is not a number.
pub open spec fn field_number(fields: Seq<Seq<char>>, i: int) -> u64 {
    if 0 <= i < fields.len() {
        match parse_decimal(fields[i]) {
            Some(v) => v,
            None => 0,
        }
    } else {
        0
    }
}

/// Field `i` of `fields` read as a number (see [`field_number`]).
pub fn field_u64(fields: &[&str], i: usize) -> (r: u64)
    ensures
        r == field_number(fields@.map_values(|t: &str| t@), i as int),
{
    if i < fields.len() {
        match parse_u64(fields[i]) {
            Some(v) => v,
            None => 0,
        }
    } else {
        0
    }
}

/// The name of a process from the fields of its `stat` file: the second
/// field without its round brackets, or nothing when there is none.
pub fn stat_name(fields: &[&str]) -> (r: String)
    ensures
        fields@.len() > 1 ==> r@ == trim_parens(fields@[1]@),
        fields@.len() <= 1 ==> r@ == Seq::<char>::empty(),
{
    if fields.len() > 1 {
        strip_parens(fields[1]).to_owned()
    } else {
        String::new()
    }
}

/// The CPU time of a process in clock ticks from the fields of its `stat`
/// file: user time (field 13) plus system time (field 14).
pub fn cpu_ticks(fields: &[&str]) -> (r: u64)
    requires
        field_number(fields@.map_values(|t: &str| t@), 13) + field_number(fields@.map_values(|t: &str| t@), 14)
            <= u64::MAX,
    ensures
        r == field_number(fields@.map_values(|t: &str| t@), 13) + field_number(
            fields@.map_values(|t: &str| t@),
            14,
        ),
{
    field_u64(fields, 13) + field_u64(fields, 14)
}

/// When a process started, in clock ticks since boot, from the fields of its
/// `stat` file (field 21; 0 when it is missing or not a number).
pub fn process_start_ticks(fields: &[&str]) -> (r: u64)
    ensures
        r == field_number(fields@.map_values(|t: &str| t@), 21),
{
    field_u64(fields, 21)
}

/// The resident memory of a process in bytes from its `status` file: the
/// `VmRSS:` value in kilobytes times 1024, or 0 when there is none.
pub open spec fn resident_bytes(status: Seq<char>) -> nat {
    match labelled_value(status, "VmRSS:"@) {
        Some(kb) => (kb * 1024) as nat,
        None => 0,
    }
}

/// The resident memory of a process in bytes (see [`resident_bytes`]).
pub fn rss_bytes(status: &str) -> (r: u64)
    requires
        resident_bytes(status@) <= u64::MAX,
    ensures
        r == resident_bytes(status@),
{
    let label = "VmRSS:";
    match labelled_number(status, label) {
        Some(kb) => kb * 1024,
        None => 0,
    }
}

/// The machine's memory in bytes from `/proc/meminfo` (when it could be
/// read): the `MemTotal:` value in kilobytes times 1024, or 1024 when it is
/// missing.
pub open spec fn total_bytes(meminfo: Option<Seq<char>>) -> nat {
    match meminfo {
        Some(text) => match labelled_value(text, "MemTotal:"@) {
            Some(kb) => (kb * 1024) as nat,
            None => 1024,
        },
        None => 1024,
    }
}

/// The text that `o` holds, if any.
pub open spec fn text_of(o: Option<&str>) -> Option<Seq<char>> {
    match o {
        Some(t) => Some(t@),
        None => None,
    }
}

/// The machine's memory in bytes (see [`total_bytes`]).
pub fn mem_total_bytes(meminfo: Option<&str>) -> (r: u64)
    requires
        total_bytes(text_of(meminfo)) <= u64::MAX,
    ensures
        r == total_bytes(text_of(meminfo)),
{
    let kb = match meminfo {
        Some(text) => match labelled_number(text, "MemTotal:") {
            Some(v) => v,
            None => 1,
        },
        None => 1,
    };
    kb * 1024
}

} // verus!
