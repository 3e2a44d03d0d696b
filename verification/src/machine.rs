use vstd::prelude::*;
use vstd::string::StrSliceExecFns;

verus! {

broadcast use vstd::string::group_string_axioms;

/// A kind of character that a scan passes over.
#[derive(Clone, Copy)]
pub enum CharClass {
    /// Whitespace, as `char::is_whitespace` has it.
    Space,
    /// Anything but whitespace.
    NonSpace,
    /// One given character.
    Is(char),
    /// Anything but one given character.
    Not(char),
}

/// `c` has the Unicode `White_Space` property.
pub open spec fn is_space(c: char) -> bool {
    ||| ('\t' <= c && c <= '\r')
    ||| c == ' '
    ||| c == '\u{85}'
    ||| c == '\u{a0}'
    ||| c == '\u{1680}'
    ||| ('\u{2000}' <= c && c <= '\u{200a}')
    ||| c == '\u{2028}'
    ||| c == '\u{2029}'
    ||| c == '\u{202f}'
    ||| c == '\u{205f}'
    ||| c == '\u{3000}'
}

/// `c` is of kind `cls`.
pub open spec fn in_class(cls: CharClass, c: char) -> bool {
    match cls {
        CharClass::Space => is_space(c),
        CharClass::NonSpace => !is_space(c),
        CharClass::Is(d) => c == d,
        CharClass::Not(d) => c != d,
    }
}

/// The first index from `i` on whose character is not of kind `cls` (the
/// length when there is none).
pub open spec fn skip(t: Seq<char>, i: int, cls: CharClass) -> int
    decreases t.len() - i,
{
    if i < 0 || i >= t.len() {
        t.len() as int
    } else if in_class(cls, t[i]) {
        skip(t, i + 1, cls)
    } else {
        i
    }
}

/// What is left of the end `j` of `t[..j]` once characters of kind `cls`
/// are dropped from its back.
pub open spec fn back(t: Seq<char>, j: int, cls: CharClass) -> int
    decreases j,
{
    if j <= 0 || j > t.len() {
        0
    } else if in_class(cls, t[j - 1]) {
        back(t, j - 1, cls)
    } else {
        j
    }
}

/// `t` with the characters of kind `cls` dropped from both ends.
pub open spec fn trim_class(t: Seq<char>, cls: CharClass) -> Seq<char> {
    let a = skip(t, 0, cls);
    if a >= t.len() {
        Seq::empty()
    } else {
        t.subrange(a, back(t, t.len() as int, cls))
    }
}

/// `t` begins with `p`.
pub open spec fn prefixed(t: Seq<char>, p: Seq<char>) -> bool {
    p.len() <= t.len() && t.subrange(0, p.len() as int) == p
}

/// A line of `s` begins at `i`.
pub open spec fn line_start(s: Seq<char>, i: int) -> bool {
    0 <= i < s.len() && (i == 0 || s[i - 1] == '\n')
}

/// The end of the line of `s` that begins at `i`: the next newline, or one
/// before it when a carriage return stands there, or the end of `s`.
pub open spec fn line_end(s: Seq<char>, i: int) -> int {
    let n = skip(s, i, CharClass::Not('\n'));
    if n < s.len() && n > i && s[n - 1] == '\r' {
        n - 1
    } else {
        n
    }
}

/// The line of `s` that begins at `i`.
pub open spec fn line_at(s: Seq<char>, i: int) -> Seq<char> {
    s.subrange(i, line_end(s, i))
}

/// The line beginning at `i` is the first line of `s` that begins with `p`.
pub open spec fn is_first_line(s: Seq<char>, p: Seq<char>, i: int) -> bool {
    &&& line_start(s, i)
    &&& prefixed(line_at(s, i), p)
    &&& forall|j: int| 0 <= j < i && line_start(s, j) ==> !prefixed(#[trigger] line_at(s, j), p)
}

/// Where the first line of `s` that begins with `p` begins, if one does.
pub open spec fn first_line(s: Seq<char>, p: Seq<char>) -> Option<int> {
    if exists|i: int| is_first_line(s, p, i) {
        Some(choose|i: int| is_first_line(s, p, i))
    } else {
        None
    }
}

/// The text between the first colon of `t` and the next one (or the end),
/// if `t` has a colon.
pub open spec fn colon_field(t: Seq<char>) -> Option<Seq<char>> {
    let k = skip(t, 0, CharClass::Not(':'));
    if k >= t.len() {
        None
    } else {
        Some(t.subrange(k + 1, skip(t, k + 1, CharClass::Not(':'))))
    }
}

/// The second of the whitespace-separated words of `t`, if it has two.
pub open spec fn second_word(t: Seq<char>) -> Option<Seq<char>> {
    let a = skip(t, 0, CharClass::Space);
    let b = skip(t, a, CharClass::NonSpace);
    let c = skip(t, b, CharClass::Space);
    if c >= t.len() {
        None
    } else {
        Some(t.subrange(c, skip(t, c, CharClass::NonSpace)))
    }
}

/// The number that the decimal digits `d` write.
pub open spec fn digits_value(d: Seq<char>) -> nat
    decreases d.len(),
{
    if d.len() == 0 {
        0
    } else {
        digits_value(d.drop_last()) * 10 + (d.last() as nat - '0' as nat) as nat
    }
}

/// Every character of `d` is a decimal digit.
pub open spec fn all_digits(d: Seq<char>) -> bool {
    forall|k: int| 0 <= k < d.len() ==> '0' <= #[trigger] d[k] && d[k] <= '9'
}

/// `t` read as an unsigned 64-bit number in decimal, with an optional `+`
/// in front, if it is one.
pub open spec fn parse_u64(t: Seq<char>) -> Option<u64> {
    let d = if t.len() > 0 && t[0] == '+' { t.drop_first() } else { t };
    if d.len() > 0 && all_digits(d) && digits_value(d) <= u64::MAX {
        Some(digits_value(d) as u64)
    } else {
        None
    }
}

/// `t` with every copy of `p` at its front taken off.
pub open spec fn strip_all(t: Seq<char>, p: Seq<char>) -> Seq<char>
    decreases t.len(),
{
    if p.len() > 0 && prefixed(t, p) {
        strip_all(t.subrange(p.len() as int, t.len() as int), p)
    } else {
        t
    }
}

/// The processor name that `/proc/cpuinfo` text `s` gives: the trimmed
/// text after the colon of its first `model name` line.
pub open spec fn cpu_brand_of(s: Option<Seq<char>>) -> Seq<char> {
    match s {
        Some(s) => match first_line(s, "model name"@) {
            Some(i) => match colon_field(line_at(s, i)) {
                Some(f) => trim_class(f, CharClass::Space),
                None => "unknown"@,
            },
            None => "unknown"@,
        },
        None => "unknown"@,
    }
}

/// The memory size in megabytes that `/proc/meminfo` text `s` gives: the
/// second word of its first `MemTotal` line, in kilobytes.
pub open spec fn total_memory_of(s: Option<Seq<char>>) -> u64 {
    match s {
        Some(s) => match first_line(s, "MemTotal"@) {
            Some(i) => match second_word(line_at(s, i)) {
                Some(w) => match parse_u64(w) {
                    Some(kb) => kb / 1024,
                    None => 0,
                },
                None => 0,
            },
            None => 0,
        },
        None => 0,
    }
}

/// The system name that `/etc/os-release` text `s` gives: its first
/// `PRETTY_NAME=` line without that prefix and without surrounding quotes.
pub open spec fn os_description_of(s: Option<Seq<char>>) -> Seq<char> {
    match s {
        Some(s) => match first_line(s, "PRETTY_NAME="@) {
            Some(i) => trim_class(strip_all(line_at(s, i), "PRETTY_NAME="@), CharClass::Is('"')),
            None => "linux"@,
        },
        None => "linux"@,
    }
}

/// The characters of `s`, in order.
fn chars_of(s: &str) -> (v: Vec<char>)
    ensures
        v@ == s@,
{
    let mut v: Vec<char> = Vec::new();
    for c in it: s.chars()
        invariant
            v@ == it.seq().take(it.index() as int),
    {
        v.push(c);
    }
    v
}

/// Whether `c` is whitespace.
fn is_space_exec(c: char) -> (b: bool)
    ensures
        b == is_space(c),
{
    ('\t' <= c && c <= '\r') || c == ' ' || c == '\u{85}' || c == '\u{a0}' || c == '\u{1680}'
        || ('\u{2000}' <= c && c <= '\u{200a}') || c == '\u{2028}' || c == '\u{2029}'
        || c == '\u{202f}' || c == '\u{205f}' || c == '\u{3000}'
}

/// Whether `c` is of kind `cls`.
fn in_class_exec(cls: CharClass, c: char) -> (b: bool)
    ensures
        b == in_class(cls, c),
{
    match cls {
        CharClass::Space => is_space_exec(c),
        CharClass::NonSpace => !is_space_exec(c),
        CharClass::Is(d) => c == d,
        CharClass::Not(d) => c != d,
    }
}

/// `skip` stops at the first character not of kind `cls`.
proof fn lemma_skip(t: Seq<char>, i: int, cls: CharClass)
    requires
        0 <= i <= t.len(),
    ensures
        i <= skip(t, i, cls) <= t.len(),
        forall|k: int| i <= k < skip(t, i, cls) ==> in_class(cls, #[trigger] t[k]),
        skip(t, i, cls) < t.len() ==> !in_class(cls, t[skip(t, i, cls)]),
    decreases t.len() - i,
{
    if i < t.len() && in_class(cls, t[i]) {
        lemma_skip(t, i + 1, cls);
    }
}

/// `back` stops after the last character not of kind `cls`.
proof fn lemma_back(t: Seq<char>, j: int, cls: CharClass)
    requires
        0 <= j <= t.len(),
    ensures
        0 <= back(t, j, cls) <= j,
        forall|k: int| back(t, j, cls) <= k < j ==> in_class(cls, #[trigger] t[k]),
        back(t, j, cls) > 0 ==> !in_class(cls, t[back(t, j, cls) - 1]),
    decreases j,
{
    if j > 0 && in_class(cls, t[j - 1]) {
        lemma_back(t, j - 1, cls);
    }
}

/// The first index from `i` on whose character is not of kind `cls`.
fn skip_exec(t: &Vec<char>, i: usize, cls: CharClass) -> (r: usize)
    requires
        i <= t@.len(),
    ensures
        r == skip(t@, i as int, cls),
{
    let mut k = i;
    while k < t.len()
        invariant
            i <= k <= t@.len(),
            skip(t@, k as int, cls) == skip(t@, i as int, cls),
        decreases t@.len() - k,
    {
        if !in_class_exec(cls, t[k]) {
            return k;
        }
        k = k + 1;
    }
    k
}

/// The end of `t[..j]` once characters of kind `cls` are dropped from its
/// back.
fn back_exec(t: &Vec<char>, j: usize, cls: CharClass) -> (r: usize)
    requires
        j <= t@.len(),
    ensures
        r == back(t@, j as int, cls),
{
    let mut k = j;
    while k > 0
        invariant
            k <= j <= t@.len(),
            back(t@, k as int, cls) == back(t@, j as int, cls),
        decreases k,
    {
        if !in_class_exec(cls, t[k - 1]) {
            return k;
        }
        k = k - 1;
    }
    k
}

/// The characters of `t` from `a` to `b`.
fn slice_of(t: &Vec<char>, a: usize, b: usize) -> (v: Vec<char>)
    requires
        a <= b <= t@.len(),
    ensures
        v@ == t@.subrange(a as int, b as int),
{
    let mut v: Vec<char> = Vec::new();
    let mut k = a;
    while k < b
        invariant
            a <= k <= b <= t@.len(),
            v@ == t@.subrange(a as int, k as int),
        decreases b - k,
    {
        v.push(t[k]);
        k = k + 1;
        assert(v@ =~= t@.subrange(a as int, k as int));
    }
    v
}

/// Whether `t` begins with `p`.
fn prefixed_exec(t: &Vec<char>, p: &Vec<char>) -> (b: bool)
    ensures
        b == prefixed(t@, p@),
{
    if p.len() > t.len() {
        return false;
    }
    let mut k: usize = 0;
    while k < p.len()
        invariant
            p@.len() <= t@.len(),
            0 <= k <= p@.len(),
            forall|x: int| 0 <= x < k ==> t@[x] == p@[x],
        decreases p@.len() - k,
    {
        if t[k] != p[k] {
            assert(t@.subrange(0, p@.len() as int)[k as int] != p@[k as int]);
            return false;
        }
        k = k + 1;
    }
    assert(t@.subrange(0, p@.len() as int) =~= p@);
    true
}

/// The text of `s`, if there is one.
pub open spec fn text_of(s: Option<&str>) -> Option<Seq<char>> {
    match s {
        Some(t) => Some(t@),
        None => None,
    }
}

/// Where the first line of `s` that begins with `p` begins, and where it
/// ends.
fn find_line(s: &Vec<char>, p: &Vec<char>) -> (r: Option<(usize, usize)>)
    ensures
        match r {
            Some((i, e)) => first_line(s@, p@) == Some(i as int) && e == line_end(s@, i as int),
            None => first_line(s@, p@) is None,
        },
{
    let n = s.len();
    let mut i: usize = 0;
    while i < n
        invariant
            n == s@.len(),
            0 <= i <= n,
            i < n ==> line_start(s@, i as int),
            forall|j: int| 0 <= j < i && line_start(s@, j) ==> !prefixed(#[trigger] line_at(s@, j), p@),
        decreases n - i,
    {
        let nl = skip_exec(s, i, CharClass::Not('\n'));
        proof {
            lemma_skip(s@, i as int, CharClass::Not('\n'));
        }
        let e = if nl < n && nl > i && s[nl - 1] == '\r' {
            nl - 1
        } else {
            nl
        };
        let line = slice_of(s, i, e);
        if prefixed_exec(&line, p) {
            proof {
                assert(is_first_line(s@, p@, i as int));
                let c = choose|c: int| is_first_line(s@, p@, c);
                if c < i {
                    assert(!prefixed(line_at(s@, c), p@));
                } else if c > i {
                    assert(!prefixed(line_at(s@, i as int), p@));
                }
            }
            return Some((i, e));
        }
        proof {
            assert forall|j: int| 0 <= j <= nl && j < n && line_start(s@, j) implies !prefixed(
                #[trigger] line_at(s@, j),
                p@,
            ) by {
                if j > i {
                    assert(s@[j - 1] != '\n');
                }
            }
        }
        if nl >= n {
            proof {
                assert forall|c: int| !is_first_line(s@, p@, c) by {
                    if line_start(s@, c) {
                        assert(!prefixed(line_at(s@, c), p@));
                    }
                }
            }
            return None;
        }
        i = nl + 1;
    }
    proof {
        assert forall|c: int| !is_first_line(s@, p@, c) by {
            if line_start(s@, c) {
                assert(!prefixed(line_at(s@, c), p@));
            }
        }
    }
    None
}

/// The processor name that `/proc/cpuinfo` text gives, `unknown` when there
/// is none or no text.
pub fn cpu_brand_from(cpuinfo: Option<&str>) -> (r: String)
    ensures
        r@ == cpu_brand_of(text_of(cpuinfo)),
{
    let text = match cpuinfo {
        Some(t) => t,
        None => {
            return "unknown".to_owned();
        },
    };
    let s = chars_of(text);
    let p = chars_of("model name");
    let (i, e) = match find_line(&s, &p) {
        Some(found) => found,
        None => {
            return "unknown".to_owned();
        },
    };
    proof {
        lemma_skip(s@, i as int, CharClass::Not('\n'));
    }
    let line = slice_of(&s, i, e);
    let k = skip_exec(&line, 0, CharClass::Not(':'));
    proof {
        lemma_skip(line@, 0, CharClass::Not(':'));
    }
    if k >= line.len() {
        return "unknown".to_owned();
    }
    let m = skip_exec(&line, k + 1, CharClass::Not(':'));
    proof {
        lemma_skip(line@, k + 1, CharClass::Not(':'));
    }
    let f = slice_of(&line, k + 1, m);
    let a = skip_exec(&f, 0, CharClass::Space);
    proof {
        lemma_skip(f@, 0, CharClass::Space);
    }
    if a >= f.len() {
        return String::new();
    }
    let b = back_exec(&f, f.len(), CharClass::Space);
    proof {
        lemma_back(f@, f@.len() as int, CharClass::Space);
        if b <= a {
            assert(in_class(CharClass::Space, f@[a as int]));
        }
    }
    let off = i + k + 1;
    let r = text.substring_char(off + a, off + b).to_owned();
    proof {
        assert(f@.subrange(a as int, b as int) =~= s@.subrange((off + a) as int, (off + b) as int));
    }
    r
}

/// A number's digits only grow it: the digits of a prefix write no more
/// than the whole.
proof fn lemma_digits_grow(d: Seq<char>, j: int)
    requires
        all_digits(d),
        0 <= j <= d.len(),
    ensures
        digits_value(d.take(j)) <= digits_value(d),
    decreases d.len(),
{
    if j < d.len() {
        let init = d.drop_last();
        assert forall|k: int| 0 <= k < init.len() implies '0' <= #[trigger] init[k] && init[k] <= '9' by {
            assert(init[k] == d[k]);
        }
        lemma_digits_grow(init, j);
        assert(init.take(j) =~= d.take(j));
    } else {
        assert(d.take(j) =~= d);
    }
}

/// `t` read as an unsigned 64-bit decimal number, with an optional `+` in
/// front.
fn parse_u64_exec(t: &Vec<char>) -> (r: Option<u64>)
    ensures
        r == parse_u64(t@),
{
    let n = t.len();
    let start: usize = if n > 0 && t[0] == '+' {
        1
    } else {
        0
    };
    let ghost d = if t@.len() > 0 && t@[0] == '+' {
        t@.drop_first()
    } else {
        t@
    };
    assert(d =~= t@.subrange(start as int, n as int));
    if start >= n {
        return None;
    }
    let mut v: u64 = 0;
    let mut k = start;
    while k < n
        invariant
            n == t@.len(),
            start <= k <= n,
            start < n,
            d == t@.subrange(start as int, n as int),
            d == (if t@.len() > 0 && t@[0] == '+' {
                t@.drop_first()
            } else {
                t@
            }),
            all_digits(t@.subrange(start as int, k as int)),
            v == digits_value(t@.subrange(start as int, k as int)),
        decreases n - k,
    {
        let c = t[k];
        if c < '0' || c > '9' {
            proof {
                assert(d[k - start] == c);
            }
            return None;
        }
        let dig = (c as u32 - '0' as u32) as u64;
        let ghost next = t@.subrange(start as int, k + 1);
        proof {
            assert(next.drop_last() =~= t@.subrange(start as int, k as int));
            assert(next.last() == c);
            assert(digits_value(next) == v * 10 + dig);
        }
        if v > 1844674407370955161 || (v == 1844674407370955161 && dig > 5) {
            proof {
                if all_digits(d) {
                    lemma_digits_grow(d, k + 1 - start);
                    assert(d.take(k + 1 - start) =~= next);
                }
            }
            return None;
        }
        v = v * 10 + dig;
        k = k + 1;
        proof {
            assert forall|x: int| 0 <= x < next.len() implies '0' <= #[trigger] next[x] && next[x] <= '9' by {
                if x < next.len() - 1 {
                    assert(next[x] == t@.subrange(start as int, (k - 1) as int)[x]);
                }
            }
        }
    }
    assert(t@.subrange(start as int, n as int) =~= d);
    Some(v)
}

/// The memory size in megabytes that `/proc/meminfo` text gives, 0 when
/// there is none or no text.
pub fn total_memory_from(meminfo: Option<&str>) -> (r: u64)
    ensures
        r == total_memory_of(text_of(meminfo)),
{
    let text = match meminfo {
        Some(t) => t,
        None => {
            return 0;
        },
    };
    let s = chars_of(text);
    let p = chars_of("MemTotal");
    let (i, e) = match find_line(&s, &p) {
        Some(found) => found,
        None => {
            return 0;
        },
    };
    proof {
        lemma_skip(s@, i as int, CharClass::Not('\n'));
    }
    let line = slice_of(&s, i, e);
    let a = skip_exec(&line, 0, CharClass::Space);
    proof {
        lemma_skip(line@, 0, CharClass::Space);
    }
    let b = skip_exec(&line, a, CharClass::NonSpace);
    proof {
        lemma_skip(line@, a as int, CharClass::NonSpace);
    }
    let c = skip_exec(&line, b, CharClass::Space);
    proof {
        lemma_skip(line@, b as int, CharClass::Space);
    }
    if c >= line.len() {
        return 0;
    }
    let d = skip_exec(&line, c, CharClass::NonSpace);
    proof {
        lemma_skip(line@, c as int, CharClass::NonSpace);
    }
    let w = slice_of(&line, c, d);
    match parse_u64_exec(&w) {
        Some(kb) => kb / 1024,
        None => 0,
    }
}

/// The system name that `/etc/os-release` text gives, `linux` when there is
/// none or no text.
pub fn os_description_from(os_release: Option<&str>) -> (r: String)
    ensures
        r@ == os_description_of(text_of(os_release)),
{
    let text = match os_release {
        Some(t) => t,
        None => {
            return "linux".to_owned();
        },
    };
    let s = chars_of(text);
    let p = chars_of("PRETTY_NAME=");
    let (i, e) = match find_line(&s, &p) {
        Some(found) => found,
        None => {
            return "linux".to_owned();
        },
    };
    proof {
        lemma_skip(s@, i as int, CharClass::Not('\n'));
    }
    let line = slice_of(&s, i, e);
    let n = line.len();
    let mut x: usize = 0;
    assert(line@.subrange(0, n as int) =~= line@);
    loop
        invariant
            n == line@.len(),
            0 <= x <= n,
            strip_all(line@.subrange(x as int, n as int), p@) == strip_all(line@, p@),
        ensures
            0 <= x <= n,
            strip_all(line@.subrange(x as int, n as int), p@) == strip_all(line@, p@),
            !(p@.len() > 0 && prefixed(line@.subrange(x as int, n as int), p@)),
        decreases n - x,
    {
        let rest = slice_of(&line, x, n);
        if p.len() > 0 && prefixed_exec(&rest, &p) {
            proof {
                assert(rest@.subrange(p@.len() as int, rest@.len() as int) =~= line@.subrange(
                    (x + p@.len()) as int,
                    n as int,
                ));
            }
            x = x + p.len();
        } else {
            break;
        }
    }
    let rest = slice_of(&line, x, n);
    assert(strip_all(rest@, p@) == rest@);
    let a = skip_exec(&rest, 0, CharClass::Is('"'));
    proof {
        lemma_skip(rest@, 0, CharClass::Is('"'));
    }
    if a >= rest.len() {
        return String::new();
    }
    let b = back_exec(&rest, rest.len(), CharClass::Is('"'));
    proof {
        lemma_back(rest@, rest@.len() as int, CharClass::Is('"'));
        if b <= a {
            assert(in_class(CharClass::Is('"'), rest@[a as int]));
        }
    }
    let off = i + x;
    let r = text.substring_char(off + a, off + b).to_owned();
    proof {
        assert(rest@.subrange(a as int, b as int) =~= s@.subrange((off + a) as int, (off + b) as int));
    }
    r
}

} // verus!
