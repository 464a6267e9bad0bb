//! Text handling shared by the parsers: turning a `str` into characters,
//! and the line / field splitting that the tools' output needs, each
//! stated as a spec function that follows the std behaviour it mirrors.
use vstd::prelude::*;
use vstd::std_specs::iter::IteratorSpec;

verus! {

broadcast use {vstd::string::axiom_spec_iter, vstd::string::next_postcondition};

/// The characters of `s`, in order.
pub fn char_vec(s: &str) -> (v: Vec<char>)
    ensures
        v@ == s@,
{
    let mut v: Vec<char> = Vec::new();
    let mut it = s.chars();
    loop
        invariant
            it.obeys_prophetic_iter_laws(),
            it.decrease() is Some,
            v@ + it.remaining() == s@,
        ensures
            v@ == s@,
        decreases it.decrease()->0,
    {
        let ghost before = it;
        match it.next() {
            Some(c) => {
                assert(v@.push(c) + it.remaining() == v@ + before.remaining());
                v.push(c);
            },
            None => {
                assert(v@ + Seq::<char>::empty() == v@);
                break ;
            },
        }
    }
    v
}

/// One line of `str::lines`: a line ended by `'\n'` loses one `'\r'` before it.
pub open spec fn strip_cr(l: Seq<char>) -> Seq<char> {
    if l.len() > 0 && l.last() == '\r' {
        l.drop_last()
    } else {
        l
    }
}

/// The lines of `s` after the partial line `cur`, as `str::lines` yields them:
/// split at each `'\n'`, a `'\r'` just before a `'\n'` dropped, and no empty
/// line after a final `'\n'`.
pub open spec fn lines_after(s: Seq<char>, cur: Seq<char>) -> Seq<Seq<char>>
    decreases s.len(),
{
    if s.len() == 0 {
        if cur.len() == 0 {
            seq![]
        } else {
            seq![cur]
        }
    } else if s[0] == '\n' {
        seq![strip_cr(cur)] + lines_after(s.drop_first(), seq![])
    } else {
        lines_after(s.drop_first(), cur.push(s[0]))
    }
}

/// The lines of `s`, as `str::lines` yields them.
pub open spec fn lines(s: Seq<char>) -> Seq<Seq<char>> {
    lines_after(s, seq![])
}

/// `r` is a list of ranges of `cs` whose contents are `parts`, in order.
pub open spec fn ranges_of(cs: Seq<char>, r: Seq<(usize, usize)>, parts: Seq<Seq<char>>) -> bool {
    &&& r.len() == parts.len()
    &&& forall|k: int|
        0 <= k < r.len() ==> {
            &&& (#[trigger] r[k]).0 <= r[k].1 <= cs.len()
            &&& cs.subrange(r[k].0 as int, r[k].1 as int) == parts[k]
        }
}

/// The ranges of the lines of `cs`, as `str::lines` splits it.
pub fn line_ranges(cs: &Vec<char>) -> (r: Vec<(usize, usize)>)
    ensures
        ranges_of(cs@, r@, lines(cs@)),
{
    let n = cs.len();
    let mut out: Vec<(usize, usize)> = Vec::new();
    let mut start: usize = 0;
    let mut i: usize = 0;
    let ghost mut done: Seq<Seq<char>> = seq![];
    assert(cs@.skip(0) == cs@);
    assert(cs@.subrange(0, 0) == Seq::<char>::empty());
    assert(done + lines(cs@) == lines(cs@));
    while i < n
        invariant
            n == cs@.len(),
            start <= i <= n,
            ranges_of(cs@, out@, done),
            lines(cs@) == done + lines_after(cs@.skip(i as int), cs@.subrange(start as int, i as int)),
        decreases n - i,
    {
        let ghost cur = cs@.subrange(start as int, i as int);
        assert(cs@.skip(i as int).drop_first() == cs@.skip(i + 1));
        if cs[i] == '\n' {
            let end = if i > start && cs[i - 1] == '\r' {
                i - 1
            } else {
                i
            };
            assert(cs@.subrange(start as int, end as int) == strip_cr(cur));
            out.push((start, end));
            proof {
                assert(lines_after(cs@.skip(i as int), cur) == seq![strip_cr(cur)] + lines_after(
                    cs@.skip(i + 1),
                    seq![],
                ));
                assert(cs@.subrange(i + 1, i + 1) == Seq::<char>::empty());
                assert(done + (seq![strip_cr(cur)] + lines_after(cs@.skip(i + 1), seq![]))
                    == done.push(strip_cr(cur)) + lines_after(cs@.skip(i + 1), seq![]));
                done = done.push(strip_cr(cur));
            }
            start = i + 1;
        } else {
            assert(cur.push(cs@[i as int]) == cs@.subrange(start as int, i + 1));
        }
        i = i + 1;
    }
    if start < n {
        proof {
            let cur = cs@.subrange(start as int, n as int);
            assert(cs@.skip(n as int).len() == 0);
            assert(lines(cs@) == done.push(cur));
            done = done.push(cur);
        }
        out.push((start, n));
    } else {
        assert(cs@.skip(n as int).len() == 0);
        assert(cs@.subrange(start as int, n as int).len() == 0);
        assert(lines(cs@) == done);
    }
    out
}

/// The fields of a line of `nmcli -t` output after the partial field `cur`.
/// Terse output separates fields with `:` and writes a `:` or a backslash
/// inside a field with a backslash before it: a backslash stands for the character after it,
/// and only an unescaped `:` separates.  (A backslash at the very end of the
/// line stands for itself.)  There is always at least one field.
pub open spec fn fields_after(s: Seq<char>, cur: Seq<char>) -> Seq<Seq<char>>
    decreases s.len(),
{
    if s.len() == 0 {
        seq![cur]
    } else if s[0] == '\\' && s.len() >= 2 {
        fields_after(s.skip(2), cur.push(s[1]))
    } else if s[0] == ':' {
        seq![cur] + fields_after(s.drop_first(), seq![])
    } else {
        fields_after(s.drop_first(), cur.push(s[0]))
    }
}

/// The unescaped fields of a line of `nmcli -t` output.
pub open spec fn terse_fields(s: Seq<char>) -> Seq<Seq<char>> {
    fields_after(s, seq![])
}

/// The views of a list of strings.
pub open spec fn views(v: Seq<String>) -> Seq<Seq<char>> {
    v.map_values(|s: String| s@)
}

/// The unescaped fields of the line `cs[lo..hi]` of `nmcli -t` output,
/// taken from `text`, whose characters `cs` are.
pub fn terse_field_strings(text: &str, cs: &Vec<char>, lo: usize, hi: usize) -> (r: Vec<String>)
    requires
        cs@ == text@,
        lo <= hi <= cs@.len(),
    ensures
        views(r@) == terse_fields(cs@.subrange(lo as int, hi as int)),
        r@.len() >= 1,
{
    let mut out: Vec<String> = Vec::new();
    let mut built = String::new();
    let mut run: usize = lo;
    let mut i: usize = lo;
    assert(cs@.subrange(lo as int, lo as int) == Seq::<char>::empty());
    assert(built@ + cs@.subrange(lo as int, lo as int) == Seq::<char>::empty());
    assert(views(out@) + terse_fields(cs@.subrange(lo as int, hi as int)) == terse_fields(
        cs@.subrange(lo as int, hi as int),
    ));
    while i < hi
        invariant
            cs@ == text@,
            lo <= run <= i <= hi <= cs@.len(),
            terse_fields(cs@.subrange(lo as int, hi as int)) == views(out@) + fields_after(
                cs@.subrange(i as int, hi as int),
                built@ + cs@.subrange(run as int, i as int),
            ),
        decreases hi - i,
    {
        let ghost cur = built@ + cs@.subrange(run as int, i as int);
        let ghost rest = cs@.subrange(i as int, hi as int);
        if cs[i] == '\\' && i + 1 < hi {
            let piece = range_string(text, cs, run, i);
            built.append(piece.as_str());
            proof {
                assert(rest.skip(2) == cs@.subrange(i + 2, hi as int));
                assert(rest[1] == cs@[i + 1]);
                assert(built@ + cs@.subrange(i + 1, i + 2) == cur.push(cs@[i + 1]));
            }
            run = i + 1;
            i = i + 2;
        } else if cs[i] == ':' {
            let piece = range_string(text, cs, run, i);
            built.append(piece.as_str());
            let ghost before = out@;
            let ghost bv = built@;
            out.push(built);
            built = String::new();
            proof {
                assert(bv == cur);
                assert(rest.drop_first() == cs@.subrange(i + 1, hi as int));
                assert(views(out@) == views(before).push(cur));
                assert(cs@.subrange(i + 1, i + 1) == Seq::<char>::empty());
                assert(built@ + cs@.subrange(i + 1, i + 1) == Seq::<char>::empty());
                let tail = fields_after(cs@.subrange(i + 1, hi as int), seq![]);
                assert(views(before) + (seq![cur] + tail) == views(before).push(cur) + tail);
            }
            run = i + 1;
            i = i + 1;
        } else {
            proof {
                assert(rest.drop_first() == cs@.subrange(i + 1, hi as int));
                assert(cur.push(cs@[i as int]) == built@ + cs@.subrange(run as int, i + 1));
            }
            i = i + 1;
        }
    }
    let piece = range_string(text, cs, run, hi);
    built.append(piece.as_str());
    let ghost before = out@;
    let ghost bv = built@;
    out.push(built);
    proof {
        assert(cs@.subrange(hi as int, hi as int).len() == 0);
        assert(views(out@) == views(before).push(bv));
        assert(views(before) + seq![bv] == views(before).push(bv));
    }
    out
}

/// `char::is_whitespace`: the characters with the Unicode `White_Space`
/// property.
pub open spec fn is_white(c: char) -> bool {
    let u = c as u32;
    ||| 0x09 <= u <= 0x0d
    ||| u == 0x20
    ||| u == 0x85
    ||| u == 0xa0
    ||| u == 0x1680
    ||| 0x2000 <= u <= 0x200a
    ||| u == 0x2028
    ||| u == 0x2029
    ||| u == 0x202f
    ||| u == 0x205f
    ||| u == 0x3000
}

/// Whether `c` is whitespace in the sense of `char::is_whitespace`.
pub fn is_whitespace_char(c: char) -> (b: bool)
    ensures
        b == is_white(c),
{
    let u = c as u32;
    (0x09 <= u && u <= 0x0d) || u == 0x20 || u == 0x85 || u == 0xa0 || u == 0x1680 || (0x2000
        <= u && u <= 0x200a) || u == 0x2028 || u == 0x2029 || u == 0x202f || u == 0x205f || u
        == 0x3000
}

/// The word in progress, if it is not empty.
pub open spec fn pending_word(cur: Seq<char>) -> Seq<Seq<char>> {
    if cur.len() == 0 {
        seq![]
    } else {
        seq![cur]
    }
}

/// The words of `s` after the partial word `cur`, as `str::split_whitespace`
/// yields them: maximal runs of non-whitespace characters.
pub open spec fn words_after(s: Seq<char>, cur: Seq<char>) -> Seq<Seq<char>>
    decreases s.len(),
{
    if s.len() == 0 {
        pending_word(cur)
    } else if is_white(s[0]) {
        pending_word(cur) + words_after(s.drop_first(), seq![])
    } else {
        words_after(s.drop_first(), cur.push(s[0]))
    }
}

/// `s.split_whitespace()`.
pub open spec fn words(s: Seq<char>) -> Seq<Seq<char>> {
    words_after(s, seq![])
}

/// The ranges of the words of `cs[lo..hi]`.
pub fn word_ranges(cs: &Vec<char>, lo: usize, hi: usize) -> (r: Vec<(usize, usize)>)
    requires
        lo <= hi <= cs@.len(),
    ensures
        ranges_of(cs@, r@, words(cs@.subrange(lo as int, hi as int))),
{
    let mut out: Vec<(usize, usize)> = Vec::new();
    let mut start: usize = lo;
    let mut i: usize = lo;
    let ghost mut done: Seq<Seq<char>> = seq![];
    assert(cs@.subrange(lo as int, lo as int) == Seq::<char>::empty());
    assert(done + words(cs@.subrange(lo as int, hi as int)) == words(
        cs@.subrange(lo as int, hi as int),
    ));
    while i < hi
        invariant
            lo <= start <= i <= hi <= cs@.len(),
            ranges_of(cs@, out@, done),
            words(cs@.subrange(lo as int, hi as int)) == done + words_after(
                cs@.subrange(i as int, hi as int),
                cs@.subrange(start as int, i as int),
            ),
        decreases hi - i,
    {
        let ghost cur = cs@.subrange(start as int, i as int);
        assert(cs@.subrange(i as int, hi as int).drop_first() == cs@.subrange(i + 1, hi as int));
        if is_whitespace_char(cs[i]) {
            proof {
                assert(cs@.subrange(i + 1, i + 1) == Seq::<char>::empty());
                let rest = words_after(cs@.subrange(i + 1, hi as int), seq![]);
                if cur.len() == 0 {
                    assert(done + (pending_word(cur) + rest) == done + rest);
                } else {
                    assert(done + (pending_word(cur) + rest) == done.push(cur) + rest);
                }
            }
            if start < i {
                out.push((start, i));
                proof {
                    done = done.push(cur);
                }
            }
            start = i + 1;
        } else {
            assert(cur.push(cs@[i as int]) == cs@.subrange(start as int, i + 1));
        }
        i = i + 1;
    }
    proof {
        assert(cs@.subrange(hi as int, hi as int).len() == 0);
    }
    if start < hi {
        proof {
            done = done.push(cs@.subrange(start as int, hi as int));
        }
        out.push((start, hi));
    } else {
        assert(done + Seq::<Seq<char>>::empty() == done);
    }
    out
}

/// `s` without its leading whitespace.
pub open spec fn trim_start(s: Seq<char>) -> Seq<char>
    decreases s.len(),
{
    if s.len() > 0 && is_white(s[0]) {
        trim_start(s.drop_first())
    } else {
        s
    }
}

/// `s` without its trailing whitespace.
pub open spec fn trim_end(s: Seq<char>) -> Seq<char>
    decreases s.len(),
{
    if s.len() > 0 && is_white(s.last()) {
        trim_end(s.drop_last())
    } else {
        s
    }
}

/// `str::trim`: leading and trailing whitespace removed.
pub open spec fn trim(s: Seq<char>) -> Seq<char> {
    trim_end(trim_start(s))
}

/// The range of `cs[lo..hi]` trimmed.
pub fn trim_range(cs: &Vec<char>, lo: usize, hi: usize) -> (r: (usize, usize))
    requires
        lo <= hi <= cs@.len(),
    ensures
        lo <= r.0 <= r.1 <= hi,
        cs@.subrange(r.0 as int, r.1 as int) == trim(cs@.subrange(lo as int, hi as int)),
{
    let mut a = lo;
    while a < hi && is_whitespace_char(cs[a])
        invariant
            lo <= a <= hi <= cs@.len(),
            trim_start(cs@.subrange(lo as int, hi as int)) == trim_start(
                cs@.subrange(a as int, hi as int),
            ),
        decreases hi - a,
    {
        assert(cs@.subrange(a as int, hi as int).drop_first() == cs@.subrange(a + 1, hi as int));
        a = a + 1;
    }
    assert(trim_start(cs@.subrange(a as int, hi as int)) == cs@.subrange(a as int, hi as int));
    let mut b = hi;
    while b > a && is_whitespace_char(cs[b - 1])
        invariant
            lo <= a <= b <= hi <= cs@.len(),
            trim_end(cs@.subrange(a as int, hi as int)) == trim_end(
                cs@.subrange(a as int, b as int),
            ),
        decreases b - a,
    {
        assert(cs@.subrange(a as int, b as int).drop_last() == cs@.subrange(a as int, b - 1));
        b = b - 1;
    }
    (a, b)
}

/// Whether `cs[a..b]` is exactly `lit`.
pub fn range_is(cs: &Vec<char>, a: usize, b: usize, lit: &str) -> (r: bool)
    requires
        a <= b <= cs@.len(),
    ensures
        r == (cs@.subrange(a as int, b as int) == lit@),
{
    let l = char_vec(lit);
    if b - a != l.len() {
        return false;
    }
    let mut i: usize = 0;
    while i < l.len()
        invariant
            b - a == l@.len(),
            a <= b <= cs@.len(),
            l@ == lit@,
            i <= l@.len(),
            forall|k: int| 0 <= k < i ==> cs@[a + k] == l@[k],
        decreases l@.len() - i,
    {
        if cs[a + i] != l[i] {
            assert(cs@.subrange(a as int, b as int)[i as int] != lit@[i as int]);
            return false;
        }
        i = i + 1;
    }
    assert(cs@.subrange(a as int, b as int) == lit@);
    true
}

/// Whether the characters of the two ranges are the same.
pub fn ranges_equal(cs: &Vec<char>, a1: usize, b1: usize, a2: usize, b2: usize) -> (r: bool)
    requires
        a1 <= b1 <= cs@.len(),
        a2 <= b2 <= cs@.len(),
    ensures
        r == (cs@.subrange(a1 as int, b1 as int) == cs@.subrange(a2 as int, b2 as int)),
{
    if b1 - a1 != b2 - a2 {
        assert(cs@.subrange(a1 as int, b1 as int).len() != cs@.subrange(a2 as int, b2 as int).len());
        return false;
    }
    let mut i: usize = 0;
    while i < b1 - a1
        invariant
            a1 <= b1 <= cs@.len(),
            a2 <= b2 <= cs@.len(),
            b1 - a1 == b2 - a2,
            i <= b1 - a1,
            forall|k: int|
                0 <= k < i ==> cs@.subrange(a1 as int, b1 as int)[k] == #[trigger] cs@.subrange(
                    a2 as int,
                    b2 as int,
                )[k],
        decreases b1 - a1 - i,
    {
        if cs[a1 + i] != cs[a2 + i] {
            assert(cs@.subrange(a1 as int, b1 as int)[i as int] != cs@.subrange(
                a2 as int,
                b2 as int,
            )[i as int]);
            return false;
        }
        i = i + 1;
    }
    assert(cs@.subrange(a1 as int, b1 as int) == cs@.subrange(a2 as int, b2 as int));
    true
}

/// Whether `cs[a..b]` begins with `lit`.
pub fn range_starts_with(cs: &Vec<char>, a: usize, b: usize, lit: &str) -> (r: bool)
    requires
        a <= b <= cs@.len(),
    ensures
        r == (lit@.len() <= b - a && cs@.subrange(a as int, a + lit@.len()) == lit@),
{
    let l = char_vec(lit);
    if l.len() > b - a {
        return false;
    }
    range_is(cs, a, a + l.len(), lit)
}

/// A decimal digit.
pub open spec fn is_digit(c: char) -> bool {
    '0' <= c <= '9'
}

/// The value of a string of decimal digits.
pub open spec fn digits_value(s: Seq<char>) -> int
    decreases s.len(),
{
    if s.len() == 0 {
        0
    } else {
        digits_value(s.drop_last()) * 10 + (s.last() as int - '0' as int)
    }
}

/// `s` without one leading `'+'`.
pub open spec fn unsigned_digits(s: Seq<char>) -> Seq<char> {
    if s.len() > 0 && s[0] == '+' {
        s.drop_first()
    } else {
        s
    }
}

/// `s.parse::<u8>()`: an optional `'+'`, then at least one decimal digit,
/// and a value that fits in a `u8`.
pub open spec fn parse_u8(s: Seq<char>) -> Option<u8> {
    let d = unsigned_digits(s);
    if d.len() > 0 && (forall|i: int| 0 <= i < d.len() ==> is_digit(#[trigger] d[i]))
        && digits_value(d) <= 255 {
        Some(digits_value(d) as u8)
    } else {
        None
    }
}

/// `cs[a..b]` parsed as a `u8`.
pub fn parse_u8_range(cs: &Vec<char>, a: usize, b: usize) -> (r: Option<u8>)
    requires
        a <= b <= cs@.len(),
    ensures
        r == parse_u8(cs@.subrange(a as int, b as int)),
{
    let ghost s = cs@.subrange(a as int, b as int);
    let start = if a < b && cs[a] == '+' {
        a + 1
    } else {
        a
    };
    let ghost d = cs@.subrange(start as int, b as int);
    assert(d == unsigned_digits(s));
    if start == b {
        return None;
    }
    let mut acc: u32 = 0;
    let mut i = start;
    assert(d.take(0) == Seq::<char>::empty());
    while i < b
        invariant
            a <= start <= i <= b <= cs@.len(),
            d == cs@.subrange(start as int, b as int),
            d == unsigned_digits(cs@.subrange(a as int, b as int)),
            forall|k: int| 0 <= k < i - start ==> is_digit(#[trigger] d[k]),
            digits_value(d.take(i - start)) >= 0,
            acc == if digits_value(d.take(i - start)) >= 256 {
                256
            } else {
                digits_value(d.take(i - start))
            },
        decreases b - i,
    {
        let c = cs[i];
        if !('0' <= c && c <= '9') {
            assert(!is_digit(d[i - start]));
            return None;
        }
        let digit = (c as u32) - ('0' as u32);
        proof {
            let t = d.take(i - start + 1);
            assert(t.drop_last() == d.take(i - start));
            assert(t.last() == c);
        }
        acc = acc * 10 + digit;
        if acc > 256 {
            acc = 256;
        }
        i = i + 1;
    }
    assert(d.take(b - start) == d);
    if acc > 255 {
        None
    } else {
        Some(acc as u8)
    }
}

/// The characters of `cs[a..b]` as a `String`, taken from `text`, whose
/// characters `cs` are.
pub fn range_string(text: &str, cs: &Vec<char>, a: usize, b: usize) -> (s: String)
    requires
        cs@ == text@,
        a <= b <= cs@.len(),
    ensures
        s@ == cs@.subrange(a as int, b as int),
{
    text.substring_char(a, b).to_owned()
}

/// Whether two strings have the same characters.
pub fn str_eq(a: &str, b: &str) -> (r: bool)
    ensures
        r == (a@ == b@),
{
    let ca = char_vec(a);
    let cb = char_vec(b);
    if ca.len() != cb.len() {
        return false;
    }
    let mut i: usize = 0;
    while i < ca.len()
        invariant
            ca@ == a@,
            cb@ == b@,
            ca@.len() == cb@.len(),
            i <= ca@.len(),
            forall|k: int| 0 <= k < i ==> ca@[k] == cb@[k],
        decreases ca@.len() - i,
    {
        if ca[i] != cb[i] {
            return false;
        }
        i = i + 1;
    }
    assert(ca@ == cb@);
    true
}

proof fn lines_run_on(l: Seq<char>, s: Seq<char>, cur: Seq<char>)
    requires
        !l.contains('\n'),
    ensures
        lines_after(l + s, cur) == lines_after(s, cur + l),
    decreases l.len(),
{
    if l.len() == 0 {
        assert(l + s == s);
        assert(cur + l == cur);
    } else {
        let t = l.drop_first();
        assert((l + s)[0] == l[0]);
        assert((l + s).drop_first() == t + s);
        assert(!t.contains('\n')) by {
            if t.contains('\n') {
                let i = choose|i: int| 0 <= i < t.len() && t[i] == '\n';
                assert(l[i + 1] == '\n');
            }
        }
        assert(l[0] != '\n');
        lines_run_on(t, s, cur.push(l[0]));
        assert(cur.push(l[0]) + t == cur + l);
    }
}

/// Lines are read one at a time: a line `l` ended by `'\n'` comes first,
/// without a `'\r'` just before the `'\n'`, followed by the lines of the
/// rest; a text with no `'\n'` is one line, or none when it is empty.
pub proof fn lines_come_one_at_a_time(l: Seq<char>, rest: Seq<char>)
    requires
        !l.contains('\n'),
    ensures
        lines(l + seq!['\n'] + rest) == seq![strip_cr(l)] + lines(rest),
        lines(l) == (if l.len() == 0 {
            Seq::<Seq<char>>::empty()
        } else {
            seq![l]
        }),
{
    assert(l + seq!['\n'] + rest == l + (seq!['\n'] + rest));
    lines_run_on(l, seq!['\n'] + rest, seq![]);
    assert(Seq::<char>::empty() + l == l);
    assert((seq!['\n'] + rest)[0] == '\n');
    assert((seq!['\n'] + rest).drop_first() == rest);
    lines_run_on(l, seq![], seq![]);
    assert(l + Seq::<char>::empty() == l);
}

proof fn words_run_on(w: Seq<char>, s: Seq<char>, cur: Seq<char>)
    requires
        forall|i: int| 0 <= i < w.len() ==> !is_white(#[trigger] w[i]),
    ensures
        words_after(w + s, cur) == words_after(s, cur + w),
    decreases w.len(),
{
    if w.len() == 0 {
        assert(w + s == s);
        assert(cur + w == cur);
    } else {
        let t = w.drop_first();
        assert((w + s)[0] == w[0]);
        assert((w + s).drop_first() == t + s);
        assert(!is_white(w[0]));
        assert forall|i: int| 0 <= i < t.len() implies !is_white(#[trigger] t[i]) by {
            assert(t[i] == w[i + 1]);
        }
        words_run_on(t, s, cur.push(w[0]));
        assert(cur.push(w[0]) + t == cur + w);
    }
}

/// Words are the runs of non-whitespace characters: a run `w` ended by a
/// whitespace character is the first word (none when `w` is empty, so
/// whitespace only separates), followed by the words of the rest; a text
/// with no whitespace is one word, or none when it is empty.
pub proof fn words_come_one_at_a_time(w: Seq<char>, sep: char, rest: Seq<char>)
    requires
        forall|i: int| 0 <= i < w.len() ==> !is_white(#[trigger] w[i]),
        is_white(sep),
    ensures
        words(w + seq![sep] + rest) == (if w.len() == 0 {
            Seq::<Seq<char>>::empty()
        } else {
            seq![w]
        }) + words(rest),
        words(w) == (if w.len() == 0 {
            Seq::<Seq<char>>::empty()
        } else {
            seq![w]
        }),
{
    assert(w + seq![sep] + rest == w + (seq![sep] + rest));
    words_run_on(w, seq![sep] + rest, seq![]);
    assert(Seq::<char>::empty() + w == w);
    assert((seq![sep] + rest)[0] == sep);
    assert((seq![sep] + rest).drop_first() == rest);
    words_run_on(w, seq![], seq![]);
    assert(w + Seq::<char>::empty() == w);
}

/// `f` written as a field of terse output: each `:` and backslash with a
/// backslash before it.
pub open spec fn escaped(f: Seq<char>) -> Seq<char>
    decreases f.len(),
{
    if f.len() == 0 {
        seq![]
    } else if f[0] == ':' || f[0] == '\\' {
        seq!['\\', f[0]] + escaped(f.drop_first())
    } else {
        seq![f[0]] + escaped(f.drop_first())
    }
}

proof fn field_runs_on(f: Seq<char>, s: Seq<char>, cur: Seq<char>)
    ensures
        fields_after(escaped(f) + s, cur) == fields_after(s, cur + f),
    decreases f.len(),
{
    if f.len() == 0 {
        assert(escaped(f) + s == s);
        assert(cur + f == cur);
    } else {
        let t = f.drop_first();
        let e = escaped(f) + s;
        if f[0] == ':' || f[0] == '\\' {
            assert(e == seq!['\\', f[0]] + (escaped(t) + s));
            assert(e[0] == '\\' && e[1] == f[0]);
            assert(e.skip(2) == escaped(t) + s);
        } else {
            assert(e == seq![f[0]] + (escaped(t) + s));
            assert(e[0] == f[0]);
            assert(e.drop_first() == escaped(t) + s);
        }
        field_runs_on(t, s, cur.push(f[0]));
        assert(cur.push(f[0]) + t == cur + f);
    }
}

/// A field written escaped reads back as itself, whatever it holds: it is
/// the first field when a `:` follows it, followed by the fields of the
/// rest, and the only field when nothing follows it.
pub proof fn escaped_fields_read_back(f: Seq<char>, rest: Seq<char>)
    ensures
        terse_fields(escaped(f) + seq![':'] + rest) == seq![f] + terse_fields(rest),
        terse_fields(escaped(f)) == seq![f],
{
    assert(escaped(f) + seq![':'] + rest == escaped(f) + (seq![':'] + rest));
    field_runs_on(f, seq![':'] + rest, seq![]);
    assert(Seq::<char>::empty() + f == f);
    let e = seq![':'] + rest;
    assert(e[0] == ':');
    assert(e.drop_first() == rest);
    assert(!(e[0] == '\\' && e.len() >= 2));
    field_runs_on(f, seq![], seq![]);
    assert(escaped(f) + Seq::<char>::empty() == escaped(f));
}

proof fn trim_start_cut(s: Seq<char>) -> (a: int)
    ensures
        0 <= a <= s.len(),
        trim_start(s) == s.skip(a),
        forall|i: int| 0 <= i < a ==> is_white(#[trigger] s[i]),
        a < s.len() ==> !is_white(s[a]),
    decreases s.len(),
{
    if s.len() > 0 && is_white(s[0]) {
        let t = s.drop_first();
        let a0 = trim_start_cut(t);
        assert(t.skip(a0) == s.skip(a0 + 1));
        assert forall|i: int| 0 <= i < a0 + 1 implies is_white(#[trigger] s[i]) by {
            if i > 0 {
                assert(s[i] == t[i - 1]);
            }
        }
        if a0 < t.len() {
            assert(s[a0 + 1] == t[a0]);
        }
        a0 + 1
    } else {
        assert(s.skip(0) == s);
        0
    }
}

proof fn trim_end_cut(s: Seq<char>) -> (b: int)
    ensures
        0 <= b <= s.len(),
        trim_end(s) == s.take(b),
        forall|i: int| b <= i < s.len() ==> is_white(#[trigger] s[i]),
        b > 0 ==> !is_white(s[b - 1]),
    decreases s.len(),
{
    if s.len() > 0 && is_white(s.last()) {
        let t = s.drop_last();
        let b0 = trim_end_cut(t);
        assert(t.take(b0) == s.take(b0));
        assert forall|i: int| b0 <= i < s.len() implies is_white(#[trigger] s[i]) by {
            if i < t.len() {
                assert(s[i] == t[i]);
            }
        }
        if b0 > 0 {
            assert(s[b0 - 1] == t[b0 - 1]);
        }
        b0
    } else {
        assert(s.take(s.len() as int) == s);
        s.len() as int
    }
}

/// Trimming takes whitespace off both ends and nothing else: the result is
/// the stretch of `s` from `r.0` to `r.1`, only whitespace stands before
/// and after that stretch, and the result neither begins nor ends with
/// whitespace.
pub proof fn trim_takes_off_only_outer_whitespace(s: Seq<char>) -> (r: (int, int))
    ensures
        0 <= r.0 <= r.1 <= s.len(),
        trim(s) == s.subrange(r.0, r.1),
        forall|i: int| 0 <= i < r.0 ==> is_white(#[trigger] s[i]),
        forall|i: int| r.1 <= i < s.len() ==> is_white(#[trigger] s[i]),
        trim(s).len() > 0 ==> !is_white(trim(s)[0]) && !is_white(trim(s).last()),
{
    let a = trim_start_cut(s);
    let t = s.skip(a);
    let b = trim_end_cut(t);
    assert(t.take(b) == s.subrange(a, a + b));
    assert forall|i: int| a + b <= i < s.len() implies is_white(#[trigger] s[i]) by {
        assert(s[i] == t[i - a]);
    }
    if b > 0 {
        assert(trim(s)[0] == t[0]);
        assert(trim(s).last() == t[b - 1]);
    }
    (a, a + b)
}

/// `n` written in decimal, without leading zeros.
pub open spec fn decimal(n: nat) -> Seq<char>
    decreases n,
{
    if n < 10 {
        seq![digit_char(n)]
    } else {
        decimal(n / 10).push(digit_char(n % 10))
    }
}

/// The decimal digit for `d` (below 10).
pub open spec fn digit_char(d: nat) -> char {
    ('0' as nat + d) as char
}

proof fn decimal_digits(n: nat)
    ensures
        decimal(n).len() > 0,
        decimal(n)[0] != '+',
        forall|i: int| 0 <= i < decimal(n).len() ==> is_digit(#[trigger] decimal(n)[i]),
        digits_value(decimal(n)) == n,
    decreases n,
{
    if n >= 10 {
        decimal_digits(n / 10);
        let d = decimal(n / 10);
        let c = digit_char(n % 10);
        assert(d.push(c).drop_last() == d);
        assert(d.push(c)[0] == d[0]);
        assert forall|i: int| 0 <= i < d.push(c).len() implies is_digit(#[trigger] d.push(c)[i]) by {
            if i < d.len() {
                assert(d.push(c)[i] == d[i]);
            }
        }
        assert(c as int - '0' as int == n % 10);
        assert(d.push(c).last() == c);
        assert(digits_value(d.push(c)) == digits_value(d) * 10 + (c as int - '0' as int));
        assert((n / 10) * 10 + n % 10 == n) by (nonlinear_arith);
    } else {
        let d: Seq<char> = seq![digit_char(n)];
        assert(d.drop_last() == Seq::<char>::empty());
        assert(d.last() == digit_char(n));
        assert(digit_char(n) as int - '0' as int == n);
        assert(digits_value(d) == digits_value(d.drop_last()) * 10 + (d.last() as int - '0' as int));
    }
}

/// Every value of a `u8` written in decimal reads back as itself, and so
/// does it with a `'+'` before it.
pub proof fn decimal_reads_back(n: u8)
    ensures
        parse_u8(decimal(n as nat)) == Some(n),
        parse_u8(seq!['+'] + decimal(n as nat)) == Some(n),
{
    let d = decimal(n as nat);
    decimal_digits(n as nat);
    assert(unsigned_digits(d) == d);
    let p = seq!['+'] + d;
    assert(p[0] == '+');
    assert(p.drop_first() == d);
}

} // verus!
