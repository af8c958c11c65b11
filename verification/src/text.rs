//! Text: white space, trimming, decimal numbers and splitting into lines.

use vstd::prelude::*;

verus! {

/// The characters with the Unicode property `White_Space`.
pub open spec fn white(c: char) -> bool {
    ||| '\u{9}' <= c <= '\u{d}'
    ||| c == '\u{20}'
    ||| c == '\u{85}'
    ||| c == '\u{a0}'
    ||| c == '\u{1680}'
    ||| '\u{2000}' <= c <= '\u{200a}'
    ||| c == '\u{2028}'
    ||| c == '\u{2029}'
    ||| c == '\u{202f}'
    ||| c == '\u{205f}'
    ||| c == '\u{3000}'
}

/// `s` without its trailing white space.
pub open spec fn trimmed_end(s: Seq<char>) -> Seq<char>
    decreases s.len(),
{
    if s.len() > 0 && white(s.last()) {
        trimmed_end(s.drop_last())
    } else {
        s
    }
}

/// `s` without its leading white space.
pub open spec fn trimmed_start(s: Seq<char>) -> Seq<char>
    decreases s.len(),
{
    if s.len() > 0 && white(s.first()) {
        trimmed_start(s.drop_first())
    } else {
        s
    }
}

/// `s` without the white space around it.
pub open spec fn trimmed(s: Seq<char>) -> Seq<char> {
    trimmed_end(trimmed_start(s))
}

/// A text of nothing but white space.
pub open spec fn blank(s: Seq<char>) -> bool {
    trimmed(s).len() == 0
}

/// The views of a list of strings.
pub open spec fn texts(list: Seq<String>) -> Seq<Seq<char>> {
    list.map_values(|s: String| s@)
}

/// The view of an optional string.
pub open spec fn opt_text(o: Option<String>) -> Option<Seq<char>> {
    match o {
        Some(s) => Some(s@),
        None => None,
    }
}

/// The view of an optional text.
pub open spec fn opt_str(o: Option<&str>) -> Option<Seq<char>> {
    match o {
        Some(s) => Some(s@),
        None => None,
    }
}

/// One line, trimmed, or nothing if it is blank.
pub open spec fn kept_line(line: Seq<char>) -> Seq<Seq<char>> {
    if blank(line) {
        seq![]
    } else {
        seq![trimmed(line)]
    }
}

/// What follows the last newline of `s`.
pub open spec fn open_line(s: Seq<char>) -> Seq<char>
    decreases s.len(),
{
    if s.len() == 0 || s.last() == '\n' {
        seq![]
    } else {
        open_line(s.drop_last()).push(s.last())
    }
}

/// The lines of `s` that a newline ends, trimmed, without the blank ones.
pub open spec fn closed_lines(s: Seq<char>) -> Seq<Seq<char>>
    decreases s.len(),
{
    if s.len() == 0 {
        seq![]
    } else if s.last() == '\n' {
        closed_lines(s.drop_last()) + kept_line(open_line(s.drop_last()))
    } else {
        closed_lines(s.drop_last())
    }
}

/// The lines of `s`, trimmed, without the blank ones.
pub open spec fn nonblank_lines(s: Seq<char>) -> Seq<Seq<char>> {
    closed_lines(s) + kept_line(open_line(s))
}

/// The decimal digit of a number below ten.
pub open spec fn digit(n: nat) -> char {
    (48 + n) as char
}

/// A number in decimal, without leading zeros.
pub open spec fn decimal(n: nat) -> Seq<char>
    decreases n,
{
    if n < 10 {
        seq![digit(n)]
    } else {
        decimal(n / 10).push(digit(n % 10))
    }
}

proof fn lemma_trimmed_start_from(s: Seq<char>, k: int)
    requires
        0 <= k <= s.len(),
        forall|i: int| 0 <= i < k ==> white(#[trigger] s[i]),
        k < s.len() ==> !white(s[k]),
    ensures
        trimmed_start(s) == s.subrange(k, s.len() as int),
    decreases k,
{
    if k > 0 {
        assert(white(s[0]));
        let rest = s.drop_first();
        assert forall|i: int| 0 <= i < k - 1 implies white(#[trigger] rest[i]) by {
            assert(rest[i] == s[i + 1]);
        }
        lemma_trimmed_start_from(rest, k - 1);
        assert(rest.subrange(k - 1, rest.len() as int) =~= s.subrange(k, s.len() as int));
    } else {
        assert(s.subrange(0, s.len() as int) =~= s);
    }
}

proof fn lemma_trimmed_end_to(s: Seq<char>, k: int)
    requires
        0 <= k <= s.len(),
        forall|i: int| k <= i < s.len() ==> white(#[trigger] s[i]),
        k > 0 ==> !white(s[k - 1]),
    ensures
        trimmed_end(s) == s.take(k),
    decreases s.len() - k,
{
    if k < s.len() {
        let rest = s.drop_last();
        assert forall|i: int| k <= i < rest.len() implies white(#[trigger] rest[i]) by {
            assert(rest[i] == s[i]);
        }
        lemma_trimmed_end_to(rest, k);
        assert(rest.take(k) =~= s.take(k));
    } else {
        assert(s.take(k) =~= s);
    }
}

/// Trimming the end leaves a prefix that does not end in white space, and takes
/// away nothing but white space.
pub proof fn law_trimmed_end(s: Seq<char>)
    ensures
        trimmed_end(s).len() <= s.len(),
        trimmed_end(s) == s.take(trimmed_end(s).len() as int),
        trimmed_end(s).len() > 0 ==> !white(trimmed_end(s).last()),
        forall|i: int| trimmed_end(s).len() <= i < s.len() ==> white(#[trigger] s[i]),
    decreases s.len(),
{
    if s.len() > 0 && white(s.last()) {
        law_trimmed_end(s.drop_last());
        let t = trimmed_end(s);
        assert(s.drop_last().take(t.len() as int) =~= s.take(t.len() as int));
        assert forall|i: int| t.len() <= i < s.len() implies white(#[trigger] s[i]) by {
            if i < s.len() - 1 {
                assert(s.drop_last()[i] == s[i]);
            }
        }
    } else {
        assert(s.take(s.len() as int) =~= s);
    }
}

/// Trimming the start leaves a suffix that does not begin with white space, and
/// takes away nothing but white space.
pub proof fn law_trimmed_start(s: Seq<char>)
    ensures
        trimmed_start(s).len() <= s.len(),
        trimmed_start(s) == s.skip(s.len() - trimmed_start(s).len()),
        trimmed_start(s).len() > 0 ==> !white(trimmed_start(s).first()),
        forall|i: int| 0 <= i < s.len() - trimmed_start(s).len() ==> white(#[trigger] s[i]),
    decreases s.len(),
{
    if s.len() > 0 && white(s.first()) {
        let rest = s.drop_first();
        law_trimmed_start(rest);
        let t = trimmed_start(s);
        assert(rest.skip(rest.len() - t.len()) =~= s.skip(s.len() - t.len()));
        assert forall|i: int| 0 <= i < s.len() - t.len() implies white(#[trigger] s[i]) by {
            if i > 0 {
                assert(rest[i - 1] == s[i]);
            }
        }
    } else {
        assert(s.skip(0) =~= s);
    }
}

/// A trimmed text neither begins nor ends with white space.
pub proof fn law_trimmed_edges(s: Seq<char>)
    ensures
        trimmed(s).len() > 0 ==> !white(trimmed(s).first()) && !white(trimmed(s).last()),
{
    law_trimmed_start(s);
    law_trimmed_end(trimmed_start(s));
}

/// Trimming twice is trimming once.
pub proof fn law_trimmed_idempotent(s: Seq<char>)
    ensures
        trimmed(trimmed(s)) == trimmed(s),
{
    law_trimmed_edges(s);
}

/// A text is blank exactly if each of its characters is white space.
pub proof fn law_blank(s: Seq<char>)
    ensures
        blank(s) <==> (forall|i: int| 0 <= i < s.len() ==> white(#[trigger] s[i])),
{
    law_trimmed_start(s);
    law_trimmed_end(trimmed_start(s));
    let u = trimmed_start(s);
    let n = s.len() - u.len();
    if blank(s) {
        if u.len() > 0 {
            assert(white(u[0]));
        }
    } else {
        assert(u[0] == s[n]);
    }
}

/// Says whether `c` is white space.
pub fn is_white(c: char) -> (r: bool)
    ensures
        r == white(c),
{
    ('\u{9}' <= c && c <= '\u{d}') || c == '\u{20}' || c == '\u{85}' || c == '\u{a0}' || c
        == '\u{1680}' || ('\u{2000}' <= c && c <= '\u{200a}') || c == '\u{2028}' || c == '\u{2029}'
        || c == '\u{202f}' || c == '\u{205f}' || c == '\u{3000}'
}

/// The characters of `s`.
pub(crate) fn chars_of(s: &str) -> (r: Vec<char>)
    ensures
        r@ == s@,
{
    let mut out: Vec<char> = Vec::new();
    for c in it: s.chars()
        invariant
            it.seq() == s@,
            out@ == s@.take(it.index() as int),
    {
        out.push(c);
    }
    out
}

/// The place of the first character of `chars[from..to]` that is not white, or `to`.
fn first_other(chars: &Vec<char>, from: usize, to: usize) -> (r: usize)
    requires
        from <= to <= chars.len(),
    ensures
        from <= r <= to,
        forall|i: int| from <= i < r ==> white(#[trigger] chars[i]),
        r < to ==> !white(chars[r as int]),
{
    let mut k: usize = from;
    while k < to && is_white(chars[k])
        invariant
            from <= k <= to <= chars.len(),
            forall|i: int| from <= i < k ==> white(#[trigger] chars[i]),
        decreases to - k,
    {
        k += 1;
    }
    k
}

/// The place behind the last character of `chars[from..to]` that is not white,
/// or `from`.
fn last_other(chars: &Vec<char>, from: usize, to: usize) -> (r: usize)
    requires
        from <= to <= chars.len(),
    ensures
        from <= r <= to,
        forall|i: int| r <= i < to ==> white(#[trigger] chars[i]),
        r > from ==> !white(chars[r - 1]),
{
    let mut k: usize = to;
    while from < k && is_white(chars[k - 1])
        invariant
            from <= k <= to <= chars.len(),
            forall|i: int| k <= i < to ==> white(#[trigger] chars[i]),
        decreases k,
    {
        k -= 1;
    }
    k
}

proof fn lemma_trimmed_range(s: Seq<char>, from: int, a: int, b: int, to: int)
    requires
        0 <= from <= a <= b <= to <= s.len(),
        forall|i: int| from <= i < a ==> white(#[trigger] s[i]),
        forall|i: int| b <= i < to ==> white(#[trigger] s[i]),
        a < to ==> !white(s[a]),
        b > a ==> !white(s[b - 1]),
    ensures
        trimmed(s.subrange(from, to)) == s.subrange(a, b),
{
    let line = s.subrange(from, to);
    assert forall|i: int| 0 <= i < a - from implies white(#[trigger] line[i]) by {
        assert(line[i] == s[from + i]);
    }
    lemma_trimmed_start_from(line, a - from);
    let rest = s.subrange(a, to);
    assert(line.subrange(a - from, line.len() as int) =~= rest);
    assert forall|i: int| b - a <= i < rest.len() implies white(#[trigger] rest[i]) by {
        assert(rest[i] == s[a + i]);
    }
    lemma_trimmed_end_to(rest, b - a);
    assert(rest.take(b - a) =~= s.subrange(a, b));
}

/// The text without the white space around it.
pub fn trim(s: &str) -> (r: &str)
    ensures
        r@ == trimmed(s@),
{
    let chars = chars_of(s);
    let n: usize = chars.len();
    let a: usize = first_other(&chars, 0, n);
    let b: usize = last_other(&chars, a, n);
    proof {
        lemma_trimmed_range(chars@, 0, a as int, b as int, n as int);
        assert(chars@.subrange(0, n as int) =~= s@);
    }
    s.substring_char(a, b)
}

/// The text without its trailing white space.
pub fn trim_end(s: &str) -> (r: &str)
    ensures
        r@ == trimmed_end(s@),
{
    let chars = chars_of(s);
    let n: usize = chars.len();
    let b: usize = last_other(&chars, 0, n);
    proof {
        lemma_trimmed_end_to(s@, b as int);
        assert(s@.subrange(0, b as int) =~= s@.take(b as int));
    }
    s.substring_char(0, b)
}

/// Says whether the text is blank.
pub fn is_blank(s: &str) -> (r: bool)
    ensures
        r == blank(s@),
{
    trim(s).is_empty()
}

/// Says whether two texts hold the same characters.
pub fn same_text(a: &str, b: &str) -> (r: bool)
    ensures
        r == (a@ == b@),
{
    a.to_string() == b.to_string()
}

/// Two texts, one after the other.
pub(crate) fn join2(a: &str, b: &str) -> (r: String)
    ensures
        r@ == a@ + b@,
{
    a.to_string().concat(b)
}

/// Three texts, one after the other.
pub(crate) fn join3(a: &str, b: &str, c: &str) -> (r: String)
    ensures
        r@ == a@ + b@ + c@,
{
    a.to_string().concat(b).concat(c)
}

/// The lines of `s`, trimmed, without the blank ones.
pub fn lines_of(s: &str) -> (r: Vec<String>)
    ensures
        texts(r@) == nonblank_lines(s@),
{
    let chars = chars_of(s);
    let n: usize = chars.len();
    let mut out: Vec<String> = Vec::new();
    let mut start: usize = 0;
    let mut i: usize = 0;
    proof {
        assert(s@.take(0) =~= Seq::<char>::empty());
        assert(s@.subrange(0, 0) =~= Seq::<char>::empty());
    }
    while i < n
        invariant
            n == chars.len(),
            chars@ == s@,
            start <= i <= n,
            texts(out@) =~= closed_lines(s@.take(i as int)),
            open_line(s@.take(i as int)) =~= s@.subrange(start as int, i as int),
        decreases n - i,
    {
        proof {
            assert(s@.take(i + 1).drop_last() =~= s@.take(i as int));
            assert(s@.take(i + 1).last() == s@[i as int]);
        }
        if chars[i] == '\n' {
            push_kept(s, &chars, start, i, &mut out);
            start = i + 1;
        } else {
            proof {
                assert(s@.subrange(start as int, i as int).push(s@[i as int]) =~= s@.subrange(
                    start as int,
                    i + 1,
                ));
            }
        }
        i += 1;
    }
    proof {
        assert(s@.take(n as int) =~= s@);
    }
    push_kept(s, &chars, start, n, &mut out);
    out
}

/// Appends `s[from..to]`, trimmed, unless it is blank.
fn push_kept(s: &str, chars: &Vec<char>, from: usize, to: usize, out: &mut Vec<String>)
    requires
        chars@ == s@,
        from <= to <= chars.len(),
    ensures
        texts(final(out)@) == texts(old(out)@) + kept_line(s@.subrange(from as int, to as int)),
{
    let a: usize = first_other(chars, from, to);
    let b: usize = last_other(chars, a, to);
    proof {
        lemma_trimmed_range(s@, from as int, a as int, b as int, to as int);
    }
    if a < b {
        let line = s.substring_char(a, b).to_string();
        proof {
            assert(texts(out@.push(line)) =~= texts(out@).push(line@));
            assert(texts(out@).push(line@) =~= texts(out@) + seq![line@]);
        }
        out.push(line);
    } else {
        proof {
            assert(texts(out@) + Seq::<Seq<char>>::empty() =~= texts(out@));
        }
    }
}

fn digit_text(n: u64) -> (r: &'static str)
    requires
        n < 10,
    ensures
        r@ == seq![digit(n as nat)],
{
    proof {
        reveal_strlit("0");
        reveal_strlit("1");
        reveal_strlit("2");
        reveal_strlit("3");
        reveal_strlit("4");
        reveal_strlit("5");
        reveal_strlit("6");
        reveal_strlit("7");
        reveal_strlit("8");
        reveal_strlit("9");
    }
    if n == 0 {
        "0"
    } else if n == 1 {
        "1"
    } else if n == 2 {
        "2"
    } else if n == 3 {
        "3"
    } else if n == 4 {
        "4"
    } else if n == 5 {
        "5"
    } else if n == 6 {
        "6"
    } else if n == 7 {
        "7"
    } else if n == 8 {
        "8"
    } else {
        "9"
    }
}

/// `n` in decimal.
pub fn decimal_text(n: u64) -> (r: String)
    ensures
        r@ == decimal(n as nat),
    decreases n,
{
    if n < 10 {
        digit_text(n).to_string()
    } else {
        let high = decimal_text(n / 10);
        let low = digit_text(n % 10);
        proof {
            assert(high@ + low@ =~= high@.push(digit((n % 10) as nat)));
        }
        high.concat(low)
    }
}

// ---------------------------------------------------------------- laws

/// Trimming gives what stands between white space: `core` if white space alone is
/// around it and it neither begins nor ends with any.
pub proof fn law_trimmed_core(before: Seq<char>, core: Seq<char>, after: Seq<char>)
    requires
        forall|i: int| 0 <= i < before.len() ==> white(#[trigger] before[i]),
        forall|i: int| 0 <= i < after.len() ==> white(#[trigger] after[i]),
        core.len() > 0,
        !white(core[0]),
        !white(core[core.len() - 1]),
    ensures
        trimmed(before + core + after) == core,
        trimmed_end(before + core + after) == before + core,
        trimmed_start(before + core + after) == core + after,
{
    let s = before + core + after;
    let a = before.len() as int;
    let b = a + core.len();
    assert forall|i: int| 0 <= i < a implies white(#[trigger] s[i]) by {
        assert(s[i] == before[i]);
    }
    assert forall|i: int| b <= i < s.len() implies white(#[trigger] s[i]) by {
        assert(s[i] == after[i - b]);
    }
    assert(s[a] == core[0] && s[b - 1] == core[core.len() - 1]);
    lemma_trimmed_range(s, 0, a, b, s.len() as int);
    assert(s.subrange(0, s.len() as int) =~= s);
    assert(s.subrange(a, b) =~= core);
    lemma_trimmed_end_to(s, b);
    assert(s.take(b) =~= before + core);
    lemma_trimmed_start_from(s, a);
    assert(s.subrange(a, s.len() as int) =~= core + after);
}

/// Of white space alone trimming leaves nothing.
pub proof fn law_trimmed_white(s: Seq<char>)
    requires
        forall|i: int| 0 <= i < s.len() ==> white(#[trigger] s[i]),
    ensures
        trimmed(s).len() == 0,
        trimmed_end(s).len() == 0,
        trimmed_start(s).len() == 0,
{
    law_blank(s);
    law_trimmed_end(s);
    law_trimmed_start(s);
    if trimmed_end(s).len() > 0 {
        assert(trimmed_end(s).last() == s[trimmed_end(s).len() - 1]);
    }
    if trimmed_start(s).len() > 0 {
        assert(trimmed_start(s).first() == s[s.len() - trimmed_start(s).len()]);
    }
}

/// A list of strings is seen string by string.
pub proof fn law_texts(list: Seq<String>)
    ensures
        texts(list).len() == list.len(),
        forall|i: int| 0 <= i < list.len() ==> #[trigger] texts(list)[i] == list[i]@,
{
}

/// An optional text is seen as it is.
pub proof fn law_optional_texts(s: String, t: &str)
    ensures
        opt_text(Some(s)) == Some(s@),
        opt_text(None) is None,
        opt_str(Some(t)) == Some(t@),
        opt_str(None) is None,
{
}

/// The lines of two texts with a newline between them are those of the one, then
/// those of the other.
pub proof fn law_lines_apart(a: Seq<char>, b: Seq<char>)
    ensures
        nonblank_lines(a + seq!['\n'] + b) == nonblank_lines(a) + nonblank_lines(b),
{
    lemma_lines_apart(a, b);
    assert(nonblank_lines(a + seq!['\n'] + b) =~= nonblank_lines(a) + nonblank_lines(b));
}

proof fn lemma_lines_apart(a: Seq<char>, b: Seq<char>)
    ensures
        closed_lines(a + seq!['\n'] + b) == nonblank_lines(a) + closed_lines(b),
        open_line(a + seq!['\n'] + b) == open_line(b),
    decreases b.len(),
{
    let s = a + seq!['\n'] + b;
    if b.len() == 0 {
        assert(s.drop_last() =~= a);
        assert(s.last() == '\n');
        assert(closed_lines(s) =~= nonblank_lines(a) + closed_lines(b));
    } else {
        lemma_lines_apart(a, b.drop_last());
        assert(s.drop_last() =~= a + seq!['\n'] + b.drop_last());
        assert(s.last() == b.last());
        assert(closed_lines(s) =~= nonblank_lines(a) + closed_lines(b));
    }
}

/// A text on one line has that line, trimmed, unless it is all white space.
pub proof fn law_one_line(s: Seq<char>)
    requires
        forall|i: int| 0 <= i < s.len() ==> #[trigger] s[i] != '\n',
    ensures
        (forall|i: int| 0 <= i < s.len() ==> white(#[trigger] s[i])) ==> nonblank_lines(s).len()
            == 0,
        (exists|i: int| 0 <= i < s.len() && !white(#[trigger] s[i])) ==> nonblank_lines(s)
            == seq![trimmed(s)],
{
    lemma_one_line(s);
    law_blank(s);
    assert(nonblank_lines(s) =~= kept_line(s));
}

proof fn lemma_one_line(s: Seq<char>)
    requires
        forall|i: int| 0 <= i < s.len() ==> #[trigger] s[i] != '\n',
    ensures
        closed_lines(s).len() == 0,
        open_line(s) == s,
    decreases s.len(),
{
    if s.len() > 0 {
        assert(s.last() == s[s.len() - 1]);
        assert forall|i: int| 0 <= i < s.len() - 1 implies #[trigger] s.drop_last()[i] != '\n' by {
            assert(s.drop_last()[i] == s[i]);
        }
        lemma_one_line(s.drop_last());
        assert(s.drop_last().push(s.last()) =~= s);
    } else {
        assert(s =~= seq![]);
    }
}

/// The number that a row of digits spells.
pub open spec fn spelled_number(s: Seq<char>) -> int
    decreases s.len(),
{
    if s.len() == 0 {
        0
    } else {
        10 * spelled_number(s.drop_last()) + (s.last() as int - 48)
    }
}

/// A number in decimal spells that number, in digits alone and without leading zeros.
pub proof fn law_decimal_spells(n: nat)
    ensures
        spelled_number(decimal(n)) == n,
        decimal(n).len() > 0,
        forall|i: int| 0 <= i < decimal(n).len() ==> '0' <= #[trigger] decimal(n)[i] <= '9',
        n > 0 ==> decimal(n)[0] != '0',
        n == 0 ==> decimal(n).len() == 1,
    decreases n,
{
    if n < 10 {
        assert(seq![digit(n)].drop_last() =~= Seq::<char>::empty());
        reveal_with_fuel(spelled_number, 2);
    } else {
        law_decimal_spells(n / 10);
        let d = decimal(n);
        assert(d.drop_last() =~= decimal(n / 10));
        assert forall|i: int| 0 <= i < d.len() implies '0' <= #[trigger] d[i] <= '9' by {
            if i < d.len() - 1 {
                assert(d[i] == decimal(n / 10)[i]);
            }
        }
        assert(d[0] == decimal(n / 10)[0]);
    }
}

/// No other row of digits without leading zeros spells the number.
pub proof fn law_decimal_only(s: Seq<char>)
    requires
        s.len() > 0,
        forall|i: int| 0 <= i < s.len() ==> '0' <= #[trigger] s[i] <= '9',
        s[0] != '0' || s.len() == 1,
    ensures
        spelled_number(s) >= 0,
        decimal(spelled_number(s) as nat) == s,
        s.len() > 1 ==> spelled_number(s) >= 10,
    decreases s.len(),
{
    let n = spelled_number(s);
    let init = s.drop_last();
    let d = s.last() as int - 48;
    assert(s.last() == s[s.len() - 1]);
    if s.len() == 1 {
        reveal_with_fuel(spelled_number, 2);
        assert(n == d);
        assert(decimal(n as nat) =~= s);
    } else {
        assert forall|i: int| 0 <= i < init.len() implies '0' <= #[trigger] init[i] <= '9' by {
            assert(init[i] == s[i]);
        }
        assert(init[0] == s[0]);
        law_decimal_only(init);
        if init.len() == 1 {
            reveal_with_fuel(spelled_number, 2);
            assert(spelled_number(init) == init[0] as int - 48);
        }
        assert(n == 10 * spelled_number(init) + d);
        assert(n / 10 == spelled_number(init));
        assert(n % 10 == d);
        assert(init.push(s.last()) =~= s);
        assert(decimal(n as nat) =~= s);
    }
}

} // verus!
