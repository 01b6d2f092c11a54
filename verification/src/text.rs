//! Character-level text model: the views of strings as `Seq<char>`, and the
//! std string operations the logbook format is defined by (line splitting,
//! trimming, prefixes, joining), each with an executable counterpart.
use vstd::prelude::*;

verus! {

/// `String::push` appends one character.
pub assume_specification[ String::push ](string: &mut String, ch: char)
    ensures
        final(string)@ == old(string)@.push(ch),
;

/// `String::push_str` appends the characters of `other`.
pub assume_specification[ String::push_str ](string: &mut String, other: &str)
    ensures
        final(string)@ == old(string)@ + other@,
;

/// The views of a sequence of character vectors.
pub open spec fn views(v: Seq<Vec<char>>) -> Seq<Seq<char>> {
    Seq::new(v.len(), |i: int| v[i]@)
}

/// Unicode `White_Space`, the class `char::is_whitespace` and `str::trim` use.
pub open spec fn is_ws(c: char) -> bool {
    ||| ('\t' <= c && c <= '\r')
    ||| c == ' '
    ||| c == '\u{85}'
    ||| c == '\u{a0}'
    ||| c == '\u{1680}'
    ||| ('\u{2000}' <= c && c <= '\u{200a}')
    ||| c == '\u{2028}'
    ||| c == '\u{2029}'
    ||| c == '\u{202f}'
    ||| c == '\u{205f}'
    ||| c == '\u{3000}'
}

/// `s` without its leading whitespace (`str::trim_start`).
pub open spec fn trim_start(s: Seq<char>) -> Seq<char>
    decreases s.len(),
{
    if s.len() > 0 && is_ws(s[0]) {
        trim_start(s.drop_first())
    } else {
        s
    }
}

/// `s` without its trailing whitespace (`str::trim_end`).
pub open spec fn trim_end(s: Seq<char>) -> Seq<char>
    decreases s.len(),
{
    if s.len() > 0 && is_ws(s.last()) {
        trim_end(s.drop_last())
    } else {
        s
    }
}

/// `s` without leading and trailing whitespace (`str::trim`).
pub open spec fn trim(s: Seq<char>) -> Seq<char> {
    trim_end(trim_start(s))
}

/// Whether `s` has no leading or trailing whitespace.
pub open spec fn is_trimmed(s: Seq<char>) -> bool {
    s.len() == 0 || (!is_ws(s[0]) && !is_ws(s.last()))
}

/// Whether `s` begins with `p` (`str::starts_with`).
pub open spec fn starts_with(s: Seq<char>, p: Seq<char>) -> bool {
    p.len() <= s.len() && s.subrange(0, p.len() as int) == p
}

/// Whether `s` ends with `p` (`str::ends_with`).
pub open spec fn ends_with(s: Seq<char>, p: Seq<char>) -> bool {
    p.len() <= s.len() && s.subrange(s.len() - p.len(), s.len() as int) == p
}

/// Whether `c` occurs in `s`.
pub open spec fn has_char(s: Seq<char>, c: char) -> bool {
    exists|i: int| 0 <= i < s.len() && s[i] == c
}

/// Exact executable counterpart of [`is_ws`].
pub fn is_whitespace(c: char) -> (r: bool)
    ensures
        r == is_ws(c),
{
    ('\t' <= c && c <= '\r') || c == ' ' || c == '\u{85}' || c == '\u{a0}' || c == '\u{1680}'
        || ('\u{2000}' <= c && c <= '\u{200a}') || c == '\u{2028}' || c == '\u{2029}' || c
        == '\u{202f}' || c == '\u{205f}' || c == '\u{3000}'
}

/// The characters of `s`, in order.
pub fn chars_of(s: &str) -> (v: Vec<char>)
    ensures
        v@ == s@,
{
    let mut v: Vec<char> = Vec::new();
    for c in it: s.chars()
        invariant
            v@ == it.seq().take(it.index() as int),
            it.seq() == s@,
    {
        v.push(c);
    }
    v
}

/// A `String` holding exactly the characters of `s`.
pub fn string_of(s: &[char]) -> (r: String)
    ensures
        r@ == s@,
{
    let mut r = String::new();
    let mut i: usize = 0;
    while i < s.len()
        invariant
            i <= s@.len(),
            r@ == s@.subrange(0, i as int),
        decreases s@.len() - i,
    {
        r.push(s[i]);
        i = i + 1;
        assert(r@ =~= s@.subrange(0, i as int));
    }
    assert(r@ =~= s@);
    r
}

/// Append every character of `b` to `a`.
pub fn extend_chars(a: &mut Vec<char>, b: &[char])
    ensures
        final(a)@ == old(a)@ + b@,
{
    let mut i: usize = 0;
    while i < b.len()
        invariant
            i <= b@.len(),
            a@ == old(a)@ + b@.subrange(0, i as int),
        decreases b@.len() - i,
    {
        a.push(b[i]);
        i = i + 1;
        assert(a@ =~= old(a)@ + b@.subrange(0, i as int));
    }
    assert(b@.subrange(0, b@.len() as int) =~= b@);
}

/// The characters `s[from..to]`.
pub fn sub_chars(s: &[char], from: usize, to: usize) -> (r: Vec<char>)
    requires
        from <= to <= s@.len(),
    ensures
        r@ == s@.subrange(from as int, to as int),
{
    let mut r: Vec<char> = Vec::new();
    let mut i: usize = from;
    while i < to
        invariant
            from <= i <= to <= s@.len(),
            r@ == s@.subrange(from as int, i as int),
        decreases to - i,
    {
        r.push(s[i]);
        i = i + 1;
        assert(r@ =~= s@.subrange(from as int, i as int));
    }
    r
}

/// Whether `p` is a prefix of `s`.
pub fn has_prefix(s: &[char], p: &[char]) -> (r: bool)
    ensures
        r == starts_with(s@, p@),
{
    if p.len() > s.len() {
        return false;
    }
    let mut i: usize = 0;
    while i < p.len()
        invariant
            p@.len() <= s@.len(),
            i <= p@.len(),
            forall|j: int| 0 <= j < i ==> s@[j] == p@[j],
        decreases p@.len() - i,
    {
        if s[i] != p[i] {
            assert(s@.subrange(0, p@.len() as int)[i as int] != p@[i as int]);
            return false;
        }
        i = i + 1;
    }
    assert(s@.subrange(0, p@.len() as int) =~= p@);
    true
}

/// Whether `p` is a suffix of `s`.
pub fn has_suffix(s: &[char], p: &[char]) -> (r: bool)
    ensures
        r == ends_with(s@, p@),
{
    if p.len() > s.len() {
        return false;
    }
    let n = s.len();
    let off = n - p.len();
    let mut i: usize = 0;
    while i < p.len()
        invariant
            p@.len() <= s@.len(),
            off == s@.len() - p@.len(),
            n == s@.len(),
            i <= p@.len(),
            forall|j: int| 0 <= j < i ==> s@[off + j] == p@[j],
        decreases p@.len() - i,
    {
        if s[off + i] != p[i] {
            assert(s@.subrange(off as int, s@.len() as int)[i as int] != p@[i as int]);
            return false;
        }
        i = i + 1;
    }
    assert(s@.subrange(off as int, s@.len() as int) =~= p@);
    true
}

/// Whether `c` occurs in `s`.
pub fn contains_char(s: &[char], c: char) -> (r: bool)
    ensures
        r == has_char(s@, c),
{
    let mut i: usize = 0;
    while i < s.len()
        invariant
            i <= s@.len(),
            forall|j: int| 0 <= j < i ==> s@[j] != c,
        decreases s@.len() - i,
    {
        if s[i] == c {
            return true;
        }
        i = i + 1;
    }
    false
}


/// Index of the first `c` in `s`, or `s.len()` when there is none.
pub open spec fn char_pos(s: Seq<char>, c: char) -> int
    decreases s.len(),
{
    if s.len() == 0 || s[0] == c {
        0
    } else {
        1 + char_pos(s.drop_first(), c)
    }
}

/// Index of the first whitespace character of `s`, or `s.len()`.
pub open spec fn ws_pos(s: Seq<char>) -> int
    decreases s.len(),
{
    if s.len() == 0 || is_ws(s[0]) {
        0
    } else {
        1 + ws_pos(s.drop_first())
    }
}

pub proof fn lemma_char_pos_bounds(s: Seq<char>, c: char)
    ensures
        0 <= char_pos(s, c) <= s.len(),
        char_pos(s, c) < s.len() ==> s[char_pos(s, c)] == c,
        forall|j: int| 0 <= j < char_pos(s, c) ==> s[j] != c,
    decreases s.len(),
{
    if s.len() > 0 && s[0] != c {
        lemma_char_pos_bounds(s.drop_first(), c);
        assert forall|j: int| 0 <= j < char_pos(s, c) implies s[j] != c by {
            if j > 0 {
                assert(s[j] == s.drop_first()[j - 1]);
            }
        }
    }
}

pub proof fn lemma_ws_pos_bounds(s: Seq<char>)
    ensures
        0 <= ws_pos(s) <= s.len(),
        ws_pos(s) < s.len() ==> is_ws(s[ws_pos(s)]),
        forall|j: int| 0 <= j < ws_pos(s) ==> !is_ws(s[j]),
    decreases s.len(),
{
    if s.len() > 0 && !is_ws(s[0]) {
        lemma_ws_pos_bounds(s.drop_first());
        assert forall|j: int| 0 <= j < ws_pos(s) implies !is_ws(s[j]) by {
            if j > 0 {
                assert(s[j] == s.drop_first()[j - 1]);
            }
        }
    }
}

/// The position of `c` in `a + b` when `a` has no `c`.
pub proof fn lemma_char_pos_append(a: Seq<char>, b: Seq<char>, c: char)
    requires
        !has_char(a, c),
    ensures
        char_pos(a + b, c) == a.len() + char_pos(b, c),
    decreases a.len(),
{
    if a.len() > 0 {
        assert(a[0] != c);
        assert((a + b).drop_first() =~= a.drop_first() + b);
        assert(!has_char(a.drop_first(), c)) by {
            if has_char(a.drop_first(), c) {
                let j = choose|j: int| 0 <= j < a.drop_first().len() && a.drop_first()[j] == c;
                assert(a[j + 1] == c);
            }
        }
        lemma_char_pos_append(a.drop_first(), b, c);
    } else {
        assert(a + b =~= b);
    }
}

/// `l` without one trailing carriage return.
pub open spec fn strip_cr(l: Seq<char>) -> Seq<char> {
    if l.len() > 0 && l.last() == '\r' {
        l.drop_last()
    } else {
        l
    }
}

/// The lines of `s` as `str::lines` yields them: split at `\n`, a `\r` right
/// before a `\n` dropped, and no final empty line after a trailing `\n`.
pub open spec fn lines(s: Seq<char>) -> Seq<Seq<char>>
    decreases s.len(),
{
    if s.len() == 0 {
        seq![]
    } else {
        let k = char_pos(s, '\n');
        if k >= s.len() {
            seq![s]
        } else {
            proof {
                lemma_char_pos_bounds(s, '\n');
            }
            seq![strip_cr(s.subrange(0, k))] + lines(s.subrange(k + 1, s.len() as int))
        }
    }
}

/// `ls` joined with `sep` between neighbours (`[T]::join`).
pub open spec fn join(ls: Seq<Seq<char>>, sep: Seq<char>) -> Seq<char>
    decreases ls.len(),
{
    if ls.len() == 0 {
        seq![]
    } else if ls.len() == 1 {
        ls[0]
    } else {
        join(ls.drop_last(), sep) + sep + ls.last()
    }
}

/// The pieces of `s` between occurrences of `c` (`str::split` on a char).
pub open spec fn split(s: Seq<char>, c: char) -> Seq<Seq<char>>
    decreases s.len(),
{
    let k = char_pos(s, c);
    if k >= s.len() {
        seq![s]
    } else {
        proof {
            lemma_char_pos_bounds(s, c);
        }
        seq![s.subrange(0, k)] + split(s.subrange(k + 1, s.len() as int), c)
    }
}

/// Whether `p` occurs in `s` starting at index `i`.
pub open spec fn matches_at(s: Seq<char>, p: Seq<char>, i: int) -> bool {
    0 <= i && i + p.len() <= s.len() && s.subrange(i, i + p.len()) == p
}

/// The first index at or after `i` where `p` occurs in `s`.
pub open spec fn find_from(s: Seq<char>, p: Seq<char>, i: int) -> Option<int>
    decreases s.len() + 1 - i,
{
    if i < 0 || i + p.len() > s.len() {
        None
    } else if matches_at(s, p, i) {
        Some(i)
    } else {
        find_from(s, p, i + 1)
    }
}

/// The first index where `p` occurs in `s` (`str::find`).
pub open spec fn find(s: Seq<char>, p: Seq<char>) -> Option<int> {
    find_from(s, p, 0)
}

/// Whether `p` occurs in `s` (`str::contains`).
pub open spec fn contains(s: Seq<char>, p: Seq<char>) -> bool {
    find(s, p) is Some
}

/// The first whitespace-separated word of `s` (`split_whitespace().next()`).
pub open spec fn first_word(s: Seq<char>) -> Option<Seq<char>> {
    let t = trim_start(s);
    if t.len() == 0 {
        None
    } else {
        Some(t.subrange(0, ws_pos(t)))
    }
}

pub proof fn lemma_find_from_facts(s: Seq<char>, p: Seq<char>, i: int)
    requires
        0 <= i,
    ensures
        find_from(s, p, i) matches Some(k) ==> i <= k && matches_at(s, p, k) && forall|j: int|
            i <= j < k ==> !matches_at(s, p, j),
        find_from(s, p, i) is None ==> forall|j: int| i <= j ==> !matches_at(s, p, j),
    decreases s.len() + 1 - i,
{
    if i + p.len() > s.len() {
    } else if matches_at(s, p, i) {
    } else {
        lemma_find_from_facts(s, p, i + 1);
    }
}

/// Whether `p` occurs in `s` at index `i`.
pub fn matches_at_exec(s: &[char], p: &[char], i: usize) -> (r: bool)
    ensures
        r == matches_at(s@, p@, i as int),
{
    let n = s.len();
    if p.len() > n || i > n - p.len() {
        return false;
    }
    let mut j: usize = 0;
    while j < p.len()
        invariant
            n == s@.len(),
            i + p@.len() <= s@.len(),
            j <= p@.len(),
            forall|t: int| 0 <= t < j ==> s@[i + t] == p@[t],
        decreases p@.len() - j,
    {
        if s[i + j] != p[j] {
            assert(s@.subrange(i as int, i + p@.len())[j as int] != p@[j as int]);
            return false;
        }
        j = j + 1;
    }
    assert(s@.subrange(i as int, i + p@.len()) =~= p@);
    true
}

/// The first index where `p` occurs in `s`.
pub fn find_exec(s: &[char], p: &[char]) -> (r: Option<usize>)
    ensures
        r matches Some(k) ==> find(s@, p@) == Some(k as int),
        r is None ==> find(s@, p@) is None,
{
    let mut i: usize = 0;
    while i <= s.len()
        invariant
            find(s@, p@) == find_from(s@, p@, i as int),
        decreases s@.len() + 1 - i,
    {
        if matches_at_exec(s, p, i) {
            return Some(i);
        }
        if p.len() > s.len() || i >= s.len() - p.len() {
            assert(find_from(s@, p@, i as int + 1) is None);
            return None;
        }
        i = i + 1;
    }
    None
}


pub proof fn lemma_split_step(cur: Seq<char>, rest: Seq<char>, c: char)
    requires
        !has_char(cur, c),
    ensures
        split(cur + seq![c] + rest, c) == seq![cur] + split(rest, c),
{
    let s = cur + seq![c] + rest;
    lemma_char_pos_append(cur, seq![c] + rest, c);
    assert(cur + (seq![c] + rest) =~= s);
    assert(char_pos(seq![c] + rest, c) == 0);
    assert(s.subrange(0, cur.len() as int) =~= cur);
    assert(s.subrange(cur.len() as int + 1, s.len() as int) =~= rest);
}

pub proof fn lemma_split_last(cur: Seq<char>, c: char)
    requires
        !has_char(cur, c),
    ensures
        split(cur, c) == seq![cur],
{
    lemma_char_pos_append(cur, seq![], c);
    assert(cur + seq![] =~= cur);
}

/// The pieces of `s` between occurrences of `c`.
pub fn split_chars(s: &[char], c: char) -> (r: Vec<Vec<char>>)
    ensures
        views(r@) == split(s@, c),
{
    let mut out: Vec<Vec<char>> = Vec::new();
    let mut cur: Vec<char> = Vec::new();
    let mut i: usize = 0;
    assert(s@.subrange(0, s@.len() as int) =~= s@);
    assert(cur@ + s@ =~= s@);
    while i < s.len()
        invariant
            i <= s@.len(),
            !has_char(cur@, c),
            split(s@, c) == views(out@) + split(cur@ + s@.subrange(i as int, s@.len() as int), c),
        decreases s@.len() - i,
    {
        let d = s[i];
        let ghost rest = s@.subrange(i as int + 1, s@.len() as int);
        assert(s@.subrange(i as int, s@.len() as int) =~= seq![d] + rest);
        if d == c {
            proof {
                lemma_split_step(cur@, rest, c);
                assert(cur@ + (seq![d] + rest) =~= cur@ + seq![c] + rest);
            }
            let ghost old_out = views(out@);
            let ghost piece = cur@;
            out.push(cur);
            assert(views(out@) =~= old_out.push(piece));
            cur = Vec::new();
            assert(cur@ + rest =~= rest);
            assert(split(s@, c) =~= views(out@) + split(cur@ + rest, c));
        } else {
            let ghost old_cur = cur@;
            cur.push(d);
            assert(!has_char(cur@, c)) by {
                if has_char(cur@, c) {
                    let j = choose|j: int| 0 <= j < cur@.len() && cur@[j] == c;
                    if j < old_cur.len() {
                        assert(old_cur[j] == c);
                    }
                }
            }
            assert(cur@ + rest =~= old_cur + (seq![d] + rest));
        }
        i = i + 1;
    }
    proof {
        assert(cur@ + s@.subrange(i as int, s@.len() as int) =~= cur@);
        lemma_split_last(cur@, c);
    }
    let ghost old_out = views(out@);
    let ghost last = cur@;
    out.push(cur);
    assert(views(out@) =~= old_out + seq![last]);
    out
}

/// `ls` joined with `sep` between neighbours.
pub fn join_chars(ls: &Vec<Vec<char>>, sep: &[char]) -> (r: Vec<char>)
    ensures
        r@ == join(views(ls@), sep@),
{
    let mut r: Vec<char> = Vec::new();
    let mut i: usize = 0;
    while i < ls.len()
        invariant
            i <= ls@.len(),
            r@ == join(views(ls@).take(i as int), sep@),
        decreases ls@.len() - i,
    {
        let ghost before = views(ls@).take(i as int);
        assert(views(ls@).take(i as int + 1).drop_last() =~= before);
        if i > 0 {
            extend_chars(&mut r, sep);
        }
        extend_chars(&mut r, ls[i].as_slice());
        i = i + 1;
        proof {
            let now = views(ls@).take(i as int);
            if i == 1 {
                assert(r@ =~= now[0]);
            } else {
                assert(now.last() == ls@[i - 1]@);
            }
        }
    }
    assert(views(ls@).take(ls@.len() as int) =~= views(ls@));
    r
}

/// Index of the first whitespace character of `s`, or its length.
pub fn ws_position(s: &[char]) -> (k: usize)
    ensures
        k == ws_pos(s@),
        k <= s@.len(),
{
    let mut k: usize = 0;
    proof {
        lemma_ws_pos_bounds(s@);
    }
    while k < s.len() && !is_whitespace(s[k])
        invariant
            k <= s@.len(),
            forall|j: int| 0 <= j < k ==> !is_ws(s@[j]),
            0 <= ws_pos(s@) <= s@.len(),
            ws_pos(s@) < s@.len() ==> is_ws(s@[ws_pos(s@)]),
            forall|j: int| 0 <= j < ws_pos(s@) ==> !is_ws(s@[j]),
        decreases s@.len() - k,
    {
        k = k + 1;
    }
    k
}

/// The first whitespace-separated word of `s`.
pub fn first_word_of(s: &[char]) -> (r: Option<Vec<char>>)
    ensures
        r matches Some(w) ==> first_word(s@) == Some(w@),
        r is None ==> first_word(s@) is None,
{
    let a = trim_start_index(s);
    if a == s.len() {
        return None;
    }
    let t = sub_chars(s, a, s.len());
    let k = ws_position(t.as_slice());
    Some(sub_chars(t.as_slice(), 0, k))
}

pub proof fn lemma_lines_step(cur: Seq<char>, rest: Seq<char>)
    requires
        !has_char(cur, '\n'),
    ensures
        lines(cur + seq!['\n'] + rest) == seq![strip_cr(cur)] + lines(rest),
{
    let s = cur + seq!['\n'] + rest;
    lemma_char_pos_append(cur, seq!['\n'] + rest, '\n');
    assert(cur + (seq!['\n'] + rest) =~= s);
    assert(char_pos(seq!['\n'] + rest, '\n') == 0);
    assert(s.subrange(0, cur.len() as int) =~= cur);
    assert(s.subrange(cur.len() as int + 1, s.len() as int) =~= rest);
}

pub proof fn lemma_lines_last(cur: Seq<char>)
    requires
        !has_char(cur, '\n'),
    ensures
        lines(cur) == (if cur.len() == 0 { seq![] } else { seq![cur] }),
{
    if cur.len() > 0 {
        lemma_char_pos_append(cur, seq![], '\n');
        assert(cur + seq![] =~= cur);
    }
}

/// The lines of `s`, as `str::lines` splits them.
pub fn lines_of(s: &[char]) -> (r: Vec<Vec<char>>)
    ensures
        views(r@) == lines(s@),
{
    let mut out: Vec<Vec<char>> = Vec::new();
    let mut cur: Vec<char> = Vec::new();
    let mut i: usize = 0;
    assert(s@.subrange(0, s@.len() as int) =~= s@);
    assert(cur@ + s@ =~= s@);
    while i < s.len()
        invariant
            i <= s@.len(),
            !has_char(cur@, '\n'),
            lines(s@) == views(out@) + lines(cur@ + s@.subrange(i as int, s@.len() as int)),
        decreases s@.len() - i,
    {
        let c = s[i];
        let ghost rest = s@.subrange(i as int + 1, s@.len() as int);
        assert(s@.subrange(i as int, s@.len() as int) =~= seq![c] + rest);
        if c == '\n' {
            proof {
                lemma_lines_step(cur@, rest);
                assert(cur@ + (seq![c] + rest) =~= cur@ + seq!['\n'] + rest);
            }
            let line = if cur.len() > 0 && cur[cur.len() - 1] == '\r' {
                sub_chars(cur.as_slice(), 0, cur.len() - 1)
            } else {
                sub_chars(cur.as_slice(), 0, cur.len())
            };
            assert(line@ == strip_cr(cur@));
            let ghost old_out = views(out@);
            out.push(line);
            assert(views(out@) =~= old_out.push(strip_cr(cur@)));
            cur = Vec::new();
            assert(cur@ + rest =~= rest);
            assert(lines(s@) =~= views(out@) + lines(cur@ + rest));
        } else {
            let ghost old_cur = cur@;
            cur.push(c);
            assert(!has_char(cur@, '\n')) by {
                if has_char(cur@, '\n') {
                    let j = choose|j: int| 0 <= j < cur@.len() && cur@[j] == '\n';
                    if j < old_cur.len() {
                        assert(old_cur[j] == '\n');
                    }
                }
            }
            assert(cur@ + rest =~= old_cur + (seq![c] + rest));
        }
        i = i + 1;
    }
    proof {
        assert(cur@ + s@.subrange(i as int, s@.len() as int) =~= cur@);
        lemma_lines_last(cur@);
    }
    if cur.len() > 0 {
        let ghost old_out = views(out@);
        let ghost last = cur@;
        out.push(cur);
        assert(views(out@) =~= old_out + seq![last]);
    } else {
        assert(views(out@) + seq![] =~= views(out@));
    }
    assert(views(out@) =~= lines(s@));
    out
}


/// Whether `a` and `b` hold the same characters.
pub fn chars_eq(a: &[char], b: &[char]) -> (r: bool)
    ensures
        r == (a@ == b@),
{
    if a.len() != b.len() {
        return false;
    }
    let mut i: usize = 0;
    while i < a.len()
        invariant
            a@.len() == b@.len(),
            i <= a@.len(),
            forall|j: int| 0 <= j < i ==> a@[j] == b@[j],
        decreases a@.len() - i,
    {
        if a[i] != b[i] {
            return false;
        }
        i = i + 1;
    }
    assert(a@ =~= b@);
    true
}


/// Each line of `ls` followed by a newline.
pub open spec fn terminated(ls: Seq<Seq<char>>) -> Seq<char>
    decreases ls.len(),
{
    if ls.len() == 0 {
        seq![]
    } else {
        ls[0] + seq!['\n'] + terminated(ls.drop_first())
    }
}

/// A line that `str::lines` gives back unchanged once a newline follows it.
pub open spec fn plain_line(l: Seq<char>) -> bool {
    !has_char(l, '\n') && strip_cr(l) == l
}

pub proof fn lemma_terminated_append(a: Seq<Seq<char>>, b: Seq<Seq<char>>)
    ensures
        terminated(a + b) == terminated(a) + terminated(b),
    decreases a.len(),
{
    if a.len() == 0 {
        assert(a + b =~= b);
    } else {
        assert((a + b).drop_first() =~= a.drop_first() + b);
        assert((a + b)[0] == a[0]);
        lemma_terminated_append(a.drop_first(), b);
        assert(terminated(a + b) =~= terminated(a) + terminated(b));
    }
}

pub proof fn lemma_terminated_one(l: Seq<char>)
    ensures
        terminated(seq![l]) == l + seq!['\n'],
{
    assert(seq![l].drop_first() =~= Seq::<Seq<char>>::empty());
    assert(terminated(Seq::<Seq<char>>::empty()) == Seq::<char>::empty());
    assert(seq![l][0] == l);
    assert(terminated(seq![l]) == l + seq!['\n'] + Seq::<char>::empty());
    assert(terminated(seq![l]) =~= l + seq!['\n']);
}

/// Splitting newline-terminated plain lines gives the lines back.
pub proof fn lemma_lines_terminated(ls: Seq<Seq<char>>)
    requires
        forall|i: int| 0 <= i < ls.len() ==> plain_line(#[trigger] ls[i]),
    ensures
        lines(terminated(ls)) == ls,
    decreases ls.len(),
{
    if ls.len() > 0 {
        assert(forall|i: int|
            0 <= i < ls.drop_first().len() ==> ls.drop_first()[i] == ls[i + 1]);
        lemma_lines_terminated(ls.drop_first());
        assert(plain_line(ls[0]));
        lemma_lines_step(ls[0], terminated(ls.drop_first()));
        assert(lines(terminated(ls)) =~= seq![ls[0]] + ls.drop_first());
        assert(seq![ls[0]] + ls.drop_first() =~= ls);
    } else {
        assert(lines(seq![]) =~= Seq::<Seq<char>>::empty());
    }
}

/// Newline-terminated lines are the lines joined by newlines plus one newline.
pub proof fn lemma_terminated_join(ls: Seq<Seq<char>>)
    requires
        ls.len() > 0,
    ensures
        terminated(ls) == join(ls, seq!['\n']) + seq!['\n'],
    decreases ls.len(),
{
    if ls.len() == 1 {
        lemma_terminated_one(ls[0]);
        assert(ls =~= seq![ls[0]]);
    } else {
        let dl = ls.drop_last();
        assert(dl + seq![ls.last()] =~= ls);
        lemma_terminated_append(dl, seq![ls.last()]);
        lemma_terminated_one(ls.last());
        lemma_terminated_join(dl);
        assert(terminated(ls) =~= join(ls, seq!['\n']) + seq!['\n']);
    }
}

/// Whitespace at the end does not survive `trim_end`.
pub proof fn lemma_trim_end_ws_suffix(x: Seq<char>, c: char)
    requires
        is_ws(c),
    ensures
        trim_end(x + seq![c]) == trim_end(x),
{
    assert((x + seq![c]).drop_last() =~= x);
}

/// A sequence with no whitespace at either end trims to itself.
pub proof fn lemma_trim_trimmed(s: Seq<char>)
    requires
        is_trimmed(s),
    ensures
        trim(s) == s,
        trim_start(s) == s,
        trim_end(s) == s,
{
}

/// Leading whitespace before trimmed text is removed by `trim`.
pub proof fn lemma_trim_ws_prefix(c: char, s: Seq<char>)
    requires
        is_ws(c),
        is_trimmed(s),
        s.len() > 0,
    ensures
        trim(seq![c] + s) == s,
{
    assert((seq![c] + s).drop_first() =~= s);
    assert(trim_start(seq![c] + s) == trim_start(s));
}

/// Splitting at the last separator peels off the final piece.
pub proof fn lemma_split_append_back(x: Seq<char>, b: Seq<char>, c: char)
    requires
        !has_char(b, c),
    ensures
        split(x + seq![c] + b, c) == split(x, c) + seq![b],
    decreases x.len(),
{
    lemma_char_pos_bounds(x, c);
    let k = char_pos(x, c);
    if k >= x.len() {
        assert(!has_char(x, c)) by {
            if has_char(x, c) {
                let j = choose|j: int| 0 <= j < x.len() && x[j] == c;
            }
        }
        lemma_split_step(x, b, c);
        lemma_split_last(b, c);
        lemma_split_last(x, c);
        assert(split(x + seq![c] + b, c) =~= split(x, c) + seq![b]);
    } else {
        let pre = x.subrange(0, k);
        let post = x.subrange(k + 1, x.len() as int);
        assert(!has_char(pre, c)) by {
            if has_char(pre, c) {
                let j = choose|j: int| 0 <= j < pre.len() && pre[j] == c;
                assert(x[j] == c);
            }
        }
        assert(x =~= pre + seq![c] + post);
        lemma_split_step(pre, post, c);
        lemma_split_step(pre, post + seq![c] + b, c);
        assert(x + seq![c] + b =~= pre + seq![c] + (post + seq![c] + b));
        lemma_split_append_back(post, b, c);
        assert(split(x + seq![c] + b, c) =~= split(x, c) + seq![b]);
    }
}

/// `find_from` gives the first match at or after `from`.
pub proof fn lemma_find_from_at(s: Seq<char>, p: Seq<char>, from: int, k: int)
    requires
        0 <= from <= k,
        matches_at(s, p, k),
        forall|j: int| from <= j < k ==> !matches_at(s, p, j),
    ensures
        find_from(s, p, from) == Some(k),
    decreases k - from,
{
    if from < k {
        lemma_find_from_at(s, p, from + 1, k);
    }
}

/// The first whitespace position in `a + b` when `a` has none.
pub proof fn lemma_ws_pos_append(a: Seq<char>, b: Seq<char>)
    requires
        forall|i: int| 0 <= i < a.len() ==> !is_ws(#[trigger] a[i]),
    ensures
        ws_pos(a + b) == a.len() + ws_pos(b),
    decreases a.len(),
{
    if a.len() > 0 {
        assert((a + b).drop_first() =~= a.drop_first() + b);
        assert(forall|i: int| 0 <= i < a.drop_first().len() ==> a.drop_first()[i] == a[i + 1]);
        lemma_ws_pos_append(a.drop_first(), b);
    } else {
        assert(a + b =~= b);
    }
}


/// A character occurs in a concatenation exactly when it occurs in a part.
pub proof fn lemma_has_char_concat(a: Seq<char>, b: Seq<char>, c: char)
    ensures
        has_char(a + b, c) <==> (has_char(a, c) || has_char(b, c)),
{
    if has_char(a + b, c) {
        let j = choose|j: int| 0 <= j < (a + b).len() && (a + b)[j] == c;
        if j < a.len() {
            assert(a[j] == c);
        } else {
            assert(b[j - a.len()] == c);
        }
    }
    if has_char(a, c) {
        let j = choose|j: int| 0 <= j < a.len() && a[j] == c;
        assert((a + b)[j] == c);
    }
    if has_char(b, c) {
        let j = choose|j: int| 0 <= j < b.len() && b[j] == c;
        assert((a + b)[a.len() + j] == c);
    }
}

/// `s` does not start with `p` when they differ at a position both have.
pub proof fn lemma_differ_at(s: Seq<char>, p: Seq<char>, m: int)
    requires
        0 <= m < p.len(),
        m < s.len(),
        s[m] != p[m],
    ensures
        !starts_with(s, p),
{
    if starts_with(s, p) {
        assert(s.subrange(0, p.len() as int)[m] == s[m]);
    }
}


/// The ASCII digit for `d` in 0..=9.
pub open spec fn digit_char(d: int) -> char {
    ((d + 48) as u8) as char
}

/// The decimal digits of `n`, as integers display.
pub open spec fn decimal(n: nat) -> Seq<char>
    decreases n,
{
    if n < 10 {
        seq![digit_char(n as int)]
    } else {
        decimal(n / 10).push(digit_char((n % 10) as int))
    }
}

/// The decimal digits of `n`.
pub fn decimal_chars(n: usize) -> (r: Vec<char>)
    ensures
        r@ == decimal(n as nat),
    decreases n,
{
    if n < 10 {
        let mut v: Vec<char> = Vec::new();
        v.push(((n as u8) + 48u8) as char);
        assert(v@ =~= seq![digit_char(n as int)]);
        v
    } else {
        let mut v = decimal_chars(n / 10);
        v.push((((n % 10) as u8) + 48u8) as char);
        v
    }
}


/// Joining from the front: the first piece, the separator, the rest joined.
pub proof fn lemma_join_front(ls: Seq<Seq<char>>, sep: Seq<char>)
    requires
        ls.len() >= 2,
    ensures
        join(ls, sep) == ls[0] + sep + join(ls.drop_first(), sep),
    decreases ls.len(),
{
    if ls.len() == 2 {
        assert(ls.drop_last() =~= seq![ls[0]]);
        assert(ls.drop_first() =~= seq![ls[1]]);
        assert(join(ls.drop_first(), sep) == ls[1]);
        assert(join(ls.drop_last(), sep) == ls[0]);
    } else {
        let dl = ls.drop_last();
        lemma_join_front(dl, sep);
        assert(dl.drop_first() =~= ls.drop_first().drop_last());
        assert(ls.drop_first().last() == ls.last());
        assert(dl[0] == ls[0]);
    }
}

/// No line of `s` holds a character that `s` does not hold.
pub proof fn lemma_lines_without(s: Seq<char>, c: char)
    requires
        !has_char(s, c),
    ensures
        forall|i: int| 0 <= i < lines(s).len() ==> !has_char(#[trigger] lines(s)[i], c),
    decreases s.len(),
{
    if s.len() > 0 {
        lemma_char_pos_bounds(s, '\n');
        let k = char_pos(s, '\n');
        if k < s.len() {
            let rest = s.subrange(k + 1, s.len() as int);
            assert(!has_char(rest, c)) by {
                if has_char(rest, c) {
                    let j = choose|j: int| 0 <= j < rest.len() && rest[j] == c;
                    assert(s[k + 1 + j] == c);
                }
            }
            lemma_lines_without(rest, c);
            let first = strip_cr(s.subrange(0, k));
            assert(!has_char(first, c)) by {
                if has_char(first, c) {
                    let j = choose|j: int| 0 <= j < first.len() && first[j] == c;
                    assert(s[j] == c);
                }
            }
            assert forall|i: int| 0 <= i < lines(s).len() implies !has_char(
                #[trigger] lines(s)[i],
                c,
            ) by {
                if i > 0 {
                    assert(lines(s)[i] == lines(rest)[i - 1]);
                }
            }
        }
    }
}

/// No carriage return stands right before a line feed.
pub open spec fn crlf_free(s: Seq<char>) -> bool {
    forall|i: int| 0 <= i < s.len() - 1 ==> !(s[i] == '\r' && #[trigger] s[i + 1] == '\n')
}

/// Joining the lines of `s` with newlines, plus a final newline when `s`
/// ends with one, gives `s` back when no `\r\n` occurs in it.
pub proof fn lemma_join_lines(s: Seq<char>)
    requires
        crlf_free(s),
    ensures
        join(lines(s), seq!['\n']) + (if ends_with(s, seq!['\n']) {
            seq!['\n']
        } else {
            seq![]
        }) == s,
    decreases s.len(),
{
    if s.len() == 0 {
        assert(lines(s) =~= Seq::<Seq<char>>::empty());
        assert(join(lines(s), seq!['\n']) == Seq::<char>::empty());
        assert(!ends_with(s, seq!['\n']));
        assert(Seq::<char>::empty() + Seq::<char>::empty() =~= s);
    } else {
        lemma_char_pos_bounds(s, '\n');
        let k = char_pos(s, '\n');
        if k >= s.len() {
            assert(lines(s) == seq![s]);
            assert(join(seq![s], seq!['\n']) == s);
            assert(!ends_with(s, seq!['\n'])) by {
                if ends_with(s, seq!['\n']) {
                    assert(s.subrange(s.len() - 1, s.len() as int)[0] == s[s.len() - 1]);
                }
            }
            assert(s + Seq::<char>::empty() =~= s);
        } else {
            let head = s.subrange(0, k);
            let rest = s.subrange(k + 1, s.len() as int);
            assert(strip_cr(head) == head) by {
                if head.len() > 0 && head.last() == '\r' {
                    let i = k - 1;
                    assert(s[i] == '\r');
                    assert(s[i + 1] == '\n');
                }
            }
            assert(s =~= head + seq!['\n'] + rest);
            assert(crlf_free(rest)) by {
                assert forall|i: int| 0 <= i < rest.len() - 1 implies !(rest[i] == '\r'
                    && #[trigger] rest[i + 1] == '\n') by {
                    assert(rest[i] == s[k + 1 + i]);
                    assert(rest[i + 1] == s[k + 1 + i + 1]);
                }
            }
            lemma_join_lines(rest);
            assert(lines(s) == seq![head] + lines(rest));
            if rest.len() == 0 {
                assert(lines(rest) =~= Seq::<Seq<char>>::empty());
                assert(lines(s) =~= seq![head]);
                assert(ends_with(s, seq!['\n'])) by {
                    assert(s.subrange(s.len() - 1, s.len() as int) =~= seq!['\n']);
                }
                assert(join(lines(s), seq!['\n']) == head);
                assert(head + seq!['\n'] =~= s);
            } else {
                let lr = lines(rest);
                assert(lr.len() > 0) by {
                    lemma_char_pos_bounds(rest, '\n');
                }
                let all = seq![head] + lr;
                if lr.len() >= 1 {
                    assert(all.len() >= 2);
                    lemma_join_front(all, seq!['\n']);
                    assert(all.drop_first() =~= lr);
                }
                assert(ends_with(s, seq!['\n']) == ends_with(rest, seq!['\n'])) by {
                    assert(s.subrange(s.len() - 1, s.len() as int) =~= rest.subrange(
                        rest.len() - 1,
                        rest.len() as int,
                    ));
                }
                let tail: Seq<char> = if ends_with(s, seq!['\n']) {
                    seq!['\n']
                } else {
                    seq![]
                };
                assert(join(all, seq!['\n']) + tail =~= head + seq!['\n'] + (join(lr, seq!['\n'])
                    + tail));
            }
        }
    }
}


/// `a` sorts strictly before `b` (`str` ordering: by bytes, which for UTF-8
/// is the order of the characters' code points, a proper prefix first).
pub open spec fn lex_lt(a: Seq<char>, b: Seq<char>) -> bool
    decreases a.len(),
{
    if b.len() == 0 {
        false
    } else if a.len() == 0 {
        true
    } else if a[0] != b[0] {
        a[0] < b[0]
    } else {
        lex_lt(a.drop_first(), b.drop_first())
    }
}

/// `a` sorts before `b` or equals it.
pub open spec fn lex_le(a: Seq<char>, b: Seq<char>) -> bool {
    a == b || lex_lt(a, b)
}

/// Whether `a` sorts strictly before `b`.
pub fn chars_lt(a: &[char], b: &[char]) -> (r: bool)
    ensures
        r == lex_lt(a@, b@),
{
    let mut i: usize = 0;
    assert(a@.subrange(0, a@.len() as int) =~= a@);
    assert(b@.subrange(0, b@.len() as int) =~= b@);
    while i < a.len() && i < b.len() && a[i] == b[i]
        invariant
            i <= a@.len(),
            i <= b@.len(),
            forall|j: int| 0 <= j < i ==> a@[j] == b@[j],
            lex_lt(a@, b@) == lex_lt(
                a@.subrange(i as int, a@.len() as int),
                b@.subrange(i as int, b@.len() as int),
            ),
        decreases a@.len() - i,
    {
        let ghost sa = a@.subrange(i as int, a@.len() as int);
        let ghost sb = b@.subrange(i as int, b@.len() as int);
        assert(sa.drop_first() =~= a@.subrange(i as int + 1, a@.len() as int));
        assert(sb.drop_first() =~= b@.subrange(i as int + 1, b@.len() as int));
        i = i + 1;
    }
    let ghost sa = a@.subrange(i as int, a@.len() as int);
    let ghost sb = b@.subrange(i as int, b@.len() as int);
    if i == b.len() {
        assert(sb.len() == 0);
        false
    } else if i == a.len() {
        assert(sa.len() == 0);
        true
    } else {
        assert(sa[0] == a@[i as int] && sb[0] == b@[i as int]);
        a[i] < b[i]
    }
}


/// An owned copy of `s`.
pub fn owned(s: &str) -> (r: String)
    ensures
        r@ == s@,
{
    let mut r = String::new();
    r.push_str(s);
    r
}

/// What `str::to_lowercase` returns: the Unicode lowercase mapping of each
/// character, with the context rule for a final capital sigma.
pub uninterp spec fn lowercase(s: Seq<char>) -> Seq<char>;

/// `str::to_lowercase`. The claim is only that the result is a function of
/// the characters of `s`, named [`lowercase`].
#[verifier::external_body]
pub(crate) fn to_lowercase(s: &str) -> (r: String)
    ensures
        r@ == lowercase(s@),
{
    s.to_lowercase()
}

proof fn lemma_trim_start_step(s: Seq<char>, i: int)
    requires
        0 <= i < s.len(),
        is_ws(s[i]),
    ensures
        trim_start(s.subrange(i, s.len() as int)) == trim_start(s.subrange(i + 1, s.len() as int)),
{
    assert(s.subrange(i, s.len() as int).drop_first() =~= s.subrange(i + 1, s.len() as int));
}

proof fn lemma_trim_end_step(s: Seq<char>, j: int)
    requires
        0 < j <= s.len(),
        is_ws(s[j - 1]),
    ensures
        trim_end(s.subrange(0, j)) == trim_end(s.subrange(0, j - 1)),
{
    assert(s.subrange(0, j).drop_last() =~= s.subrange(0, j - 1));
}

/// The index of the first non-whitespace character of `s`, or its length.
pub fn trim_start_index(s: &[char]) -> (i: usize)
    ensures
        i <= s@.len(),
        trim_start(s@) == s@.subrange(i as int, s@.len() as int),
{
    let mut i: usize = 0;
    assert(s@.subrange(0, s@.len() as int) =~= s@);
    while i < s.len() && is_whitespace(s[i])
        invariant
            i <= s@.len(),
            trim_start(s@) == trim_start(s@.subrange(i as int, s@.len() as int)),
        decreases s@.len() - i,
    {
        proof {
            lemma_trim_start_step(s@, i as int);
        }
        i = i + 1;
    }
    i
}

/// The length of `s` without its trailing whitespace.
pub fn trim_end_index(s: &[char]) -> (j: usize)
    ensures
        j <= s@.len(),
        trim_end(s@) == s@.subrange(0, j as int),
{
    let mut j: usize = s.len();
    assert(s@.subrange(0, s@.len() as int) =~= s@);
    while j > 0 && is_whitespace(s[j - 1])
        invariant
            j <= s@.len(),
            trim_end(s@) == trim_end(s@.subrange(0, j as int)),
        decreases j,
    {
        proof {
            lemma_trim_end_step(s@, j as int);
        }
        j = j - 1;
    }
    j
}

/// `s` without leading and trailing whitespace.
pub fn trim_chars(s: &[char]) -> (r: Vec<char>)
    ensures
        r@ == trim(s@),
{
    let a = trim_start_index(s);
    let t = sub_chars(s, a, s.len());
    let b = trim_end_index(t.as_slice());
    sub_chars(t.as_slice(), 0, b)
}

/// `s` without trailing whitespace.
pub fn trim_end_chars(s: &[char]) -> (r: Vec<char>)
    ensures
        r@ == trim_end(s@),
{
    let b = trim_end_index(s);
    sub_chars(s, 0, b)
}

} // verus!

verus! {

/// No sequence sorts before itself.
pub proof fn lemma_lex_lt_irreflexive(a: Seq<char>)
    ensures
        !lex_lt(a, a),
    decreases a.len(),
{
    if a.len() > 0 {
        lemma_lex_lt_irreflexive(a.drop_first());
    }
}

/// Sorting before is transitive.
pub proof fn lemma_lex_lt_transitive(a: Seq<char>, b: Seq<char>, c: Seq<char>)
    requires
        lex_lt(a, b),
        lex_lt(b, c),
    ensures
        lex_lt(a, c),
    decreases a.len(),
{
    if a.len() > 0 && b.len() > 0 && c.len() > 0 && a[0] == b[0] && b[0] == c[0] {
        lemma_lex_lt_transitive(a.drop_first(), b.drop_first(), c.drop_first());
    }
}

/// Of two different sequences, one sorts before the other, and never both.
pub proof fn lemma_lex_lt_total(a: Seq<char>, b: Seq<char>)
    ensures
        a != b ==> lex_lt(a, b) || lex_lt(b, a),
        !(lex_lt(a, b) && lex_lt(b, a)),
    decreases a.len(),
{
    if a.len() > 0 && b.len() > 0 && a[0] == b[0] {
        lemma_lex_lt_total(a.drop_first(), b.drop_first());
        if a != b {
            assert(a =~= seq![a[0]] + a.drop_first());
            assert(b =~= seq![b[0]] + b.drop_first());
        }
    }
    if a.len() == 0 && b.len() == 0 {
        assert(a =~= b);
    }
}

} // verus!

verus! {

/// Without `\r\n`, and not ending in `\r`, every line of `s` is plain.
pub proof fn lemma_lines_plain(s: Seq<char>)
    requires
        crlf_free(s),
        s.len() == 0 || s.last() != '\r',
    ensures
        forall|i: int| 0 <= i < lines(s).len() ==> plain_line(#[trigger] lines(s)[i]),
    decreases s.len(),
{
    if s.len() > 0 {
        lemma_char_pos_bounds(s, '\n');
        let k = char_pos(s, '\n');
        if k >= s.len() {
            assert(lines(s) == seq![s]);
            assert(!has_char(s, '\n'));
        } else {
            let cur = s.subrange(0, k);
            let rest = s.subrange(k + 1, s.len() as int);
            assert(!has_char(cur, '\n'));
            if k > 0 {
                assert(s[k - 1] != '\r') by {
                    assert(s[k] == '\n');
                    assert(s[(k - 1) + 1] == '\n');
                    assert(!(s[k - 1] == '\r' && s[(k - 1) + 1] == '\n'));
                }
                assert(cur.last() == s[k - 1]);
            }
            assert(strip_cr(cur) == cur);
            assert(crlf_free(rest)) by {
                assert forall|i: int| 0 <= i < rest.len() - 1 implies !(rest[i] == '\r'
                    && #[trigger] rest[i + 1] == '\n') by {
                    assert(rest[i] == s[k + 1 + i]);
                    assert(rest[i + 1] == s[k + 1 + i + 1]);
                }
            }
            if rest.len() > 0 {
                assert(rest.last() == s.last());
            }
            lemma_lines_plain(rest);
            assert(lines(s) == seq![strip_cr(cur)] + lines(rest));
            assert forall|i: int| 0 <= i < lines(s).len() implies plain_line(
                #[trigger] lines(s)[i],
            ) by {
                if i > 0 {
                    assert(lines(s)[i] == lines(rest)[i - 1]);
                }
            }
        }
    }
}

} // verus!
