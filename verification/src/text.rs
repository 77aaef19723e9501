//! Character-level text primitives: whitespace classes, runs, trimming,
//! splitting and joining, all stated over sequences of characters.
use vstd::prelude::*;

verus! {

/// `String::push` appends one character to the end of the string.
pub assume_specification[ String::push ](s: &mut String, c: char)
    ensures
        final(s)@ == old(s)@.push(c),
;

/// Whether `c` carries the Unicode `White_Space` property.
pub open spec fn is_space(c: char) -> bool {
    let n = c as u32;
    ||| 0x09 <= n <= 0x0D
    ||| n == 0x20
    ||| n == 0x85
    ||| n == 0xA0
    ||| n == 0x1680
    ||| 0x2000 <= n <= 0x200A
    ||| n == 0x2028
    ||| n == 0x2029
    ||| n == 0x202F
    ||| n == 0x205F
    ||| n == 0x3000
}

pub fn is_whitespace(c: char) -> (b: bool)
    ensures
        b == is_space(c),
{
    let n: u32 = c as u32;
    (0x09 <= n && n <= 0x0D) || n == 0x20 || n == 0x85 || n == 0xA0 || n == 0x1680 || (0x2000 <= n
        && n <= 0x200A) || n == 0x2028 || n == 0x2029 || n == 0x202F || n == 0x205F || n == 0x3000
}

/// A set of characters that a scan can run over.
#[derive(Clone, Copy)]
pub enum CharClass {
    /// Whitespace characters.
    Blank,
    /// Everything but whitespace.
    NonBlank,
    /// The one given character.
    Only(char),
    /// Everything but the given character.
    Except(char),
}

impl CharClass {
    pub open spec fn holds(self, c: char) -> bool {
        match self {
            CharClass::Blank => is_space(c),
            CharClass::NonBlank => !is_space(c),
            CharClass::Only(x) => c == x,
            CharClass::Except(x) => c != x,
        }
    }

    pub fn test(self, c: char) -> (b: bool)
        ensures
            b == self.holds(c),
    {
        match self {
            CharClass::Blank => is_whitespace(c),
            CharClass::NonBlank => !is_whitespace(c),
            CharClass::Only(x) => c == x,
            CharClass::Except(x) => c != x,
        }
    }
}

/// How many characters at the front of `s` belong to `class`.
pub open spec fn run_len(s: Seq<char>, class: CharClass) -> nat
    decreases s.len(),
{
    if s.len() > 0 && class.holds(s[0]) {
        1 + run_len(s.drop_first(), class)
    } else {
        0
    }
}

/// How many characters at the back of `s` belong to `class`.
pub open spec fn back_run_len(s: Seq<char>, class: CharClass) -> nat
    decreases s.len(),
{
    if s.len() > 0 && class.holds(s.last()) {
        1 + back_run_len(s.drop_last(), class)
    } else {
        0
    }
}

/// The front run is exactly the longest prefix inside the class.
pub proof fn lemma_run_len(s: Seq<char>, class: CharClass)
    ensures
        0 <= run_len(s, class) <= s.len(),
        forall|j: int| 0 <= j < run_len(s, class) ==> class.holds(#[trigger] s[j]),
        run_len(s, class) < s.len() ==> !class.holds(s[run_len(s, class) as int]),
    decreases s.len(),
{
    if s.len() > 0 && class.holds(s[0]) {
        let t = s.drop_first();
        lemma_run_len(t, class);
        assert forall|j: int| 0 <= j < run_len(s, class) implies class.holds(#[trigger] s[j]) by {
            if j > 0 {
                assert(s[j] == t[j - 1]);
            }
        }
        if run_len(s, class) < s.len() {
            assert(s[run_len(s, class) as int] == t[run_len(t, class) as int]);
        }
    }
}

/// A prefix inside the class that cannot be extended is the front run.
pub proof fn lemma_run_len_is(s: Seq<char>, class: CharClass, k: int)
    requires
        0 <= k <= s.len(),
        forall|j: int| 0 <= j < k ==> class.holds(#[trigger] s[j]),
        k < s.len() ==> !class.holds(s[k]),
    ensures
        run_len(s, class) == k,
    decreases s.len(),
{
    if k > 0 {
        let t = s.drop_first();
        assert(class.holds(s[0]));
        assert forall|j: int| 0 <= j < k - 1 implies class.holds(#[trigger] t[j]) by {
            assert(t[j] == s[j + 1]);
        }
        lemma_run_len_is(t, class, k - 1);
    }
}

/// The back run is exactly the longest suffix inside the class.
pub proof fn lemma_back_run_len(s: Seq<char>, class: CharClass)
    ensures
        0 <= back_run_len(s, class) <= s.len(),
        forall|j: int| s.len() - back_run_len(s, class) <= j < s.len() ==> class.holds(#[trigger] s[j]),
        back_run_len(s, class) < s.len() ==> !class.holds(s[s.len() - back_run_len(s, class) - 1]),
    decreases s.len(),
{
    if s.len() > 0 && class.holds(s.last()) {
        let t = s.drop_last();
        lemma_back_run_len(t, class);
        assert forall|j: int| s.len() - back_run_len(s, class) <= j < s.len() implies class.holds(
            #[trigger] s[j],
        ) by {
            if j < s.len() - 1 {
                assert(s[j] == t[j]);
            }
        }
        if back_run_len(s, class) < s.len() {
            assert(s[s.len() - back_run_len(s, class) - 1] == t[t.len() - back_run_len(t, class) - 1]);
        }
    }
}

/// A suffix inside the class that cannot be extended is the back run.
pub proof fn lemma_back_run_len_is(s: Seq<char>, class: CharClass, k: int)
    requires
        0 <= k <= s.len(),
        forall|j: int| s.len() - k <= j < s.len() ==> class.holds(#[trigger] s[j]),
        k < s.len() ==> !class.holds(s[s.len() - k - 1]),
    ensures
        back_run_len(s, class) == k,
    decreases s.len(),
{
    if k > 0 {
        let t = s.drop_last();
        assert(class.holds(s[s.len() - 1]));
        assert forall|j: int| t.len() - (k - 1) <= j < t.len() implies class.holds(#[trigger] t[j]) by {
            assert(t[j] == s[j]);
        }
        lemma_back_run_len_is(t, class, k - 1);
    }
}

/// Scans forward from `lo` while the characters belong to `class`, stopping
/// at `hi` at the latest.
pub fn scan_run(v: &Vec<char>, lo: usize, hi: usize, class: CharClass) -> (to: usize)
    requires
        lo <= hi <= v.len(),
    ensures
        to == lo + run_len(v@.subrange(lo as int, hi as int), class),
        lo <= to <= hi,
{
    let mut i: usize = lo;
    while i < hi && class.test(v[i])
        invariant
            lo <= i <= hi <= v.len(),
            forall|j: int| lo <= j < i ==> class.holds(#[trigger] v@[j]),
        decreases hi - i,
    {
        i += 1;
    }
    proof {
        lemma_run_len_is(v@.subrange(lo as int, hi as int), class, i - lo);
    }
    i
}

/// Scans backward from `hi` while the characters belong to `class`, stopping
/// at `lo` at the latest.
pub fn scan_back(v: &Vec<char>, lo: usize, hi: usize, class: CharClass) -> (from: usize)
    requires
        lo <= hi <= v.len(),
    ensures
        from == hi - back_run_len(v@.subrange(lo as int, hi as int), class),
        lo <= from <= hi,
{
    let mut i: usize = hi;
    while i > lo && class.test(v[i - 1])
        invariant
            lo <= i <= hi <= v.len(),
            forall|j: int| i <= j < hi ==> class.holds(#[trigger] v@[j]),
        decreases i - lo,
    {
        i -= 1;
    }
    proof {
        lemma_back_run_len_is(v@.subrange(lo as int, hi as int), class, hi - i);
    }
    i
}

/// Copies the characters of `v` from `lo` up to `hi`.
pub fn copy_range(v: &Vec<char>, lo: usize, hi: usize) -> (out: Vec<char>)
    requires
        lo <= hi <= v.len(),
    ensures
        out@ == v@.subrange(lo as int, hi as int),
{
    let mut out: Vec<char> = Vec::new();
    let mut i: usize = lo;
    while i < hi
        invariant
            lo <= i <= hi <= v.len(),
            out@ == v@.subrange(lo as int, i as int),
        decreases hi - i,
    {
        out.push(v[i]);
        i += 1;
    }
    out
}

/// The characters of a string slice, one by one.
pub fn chars_of(s: &str) -> (out: Vec<char>)
    ensures
        out@ == s@,
{
    let mut out: Vec<char> = Vec::new();
    for c in it: s.chars()
        invariant
            it.seq() == s@,
            out@ == it.seq().take(it.index()),
    {
        out.push(c);
    }
    out
}

/// The string made of the given characters.
pub fn string_of(v: &Vec<char>) -> (out: String)
    ensures
        out@ == v@,
{
    let mut out = String::new();
    let mut i: usize = 0;
    while i < v.len()
        invariant
            i <= v.len(),
            out@ == v@.take(i as int),
        decreases v.len() - i,
    {
        out.push(v[i]);
        i += 1;
    }
    out
}

/// Whether `s` begins with `p`.
pub open spec fn has_prefix(s: Seq<char>, p: Seq<char>) -> bool {
    p.len() <= s.len() && s.take(p.len() as int) == p
}

pub fn starts_with(v: &Vec<char>, p: &Vec<char>) -> (b: bool)
    ensures
        b == has_prefix(v@, p@),
{
    if p.len() > v.len() {
        return false;
    }
    let mut i: usize = 0;
    while i < p.len()
        invariant
            i <= p.len() <= v.len(),
            v@.take(i as int) == p@.take(i as int),
        decreases p.len() - i,
    {
        if v[i] != p[i] {
            proof {
                assert(v@.take(p.len() as int)[i as int] != p@[i as int]);
            }
            return false;
        }
        proof {
            assert(v@.take(i + 1) =~= v@.take(i as int).push(v@[i as int]));
            assert(p@.take(i + 1) =~= p@.take(i as int).push(p@[i as int]));
        }
        i += 1;
    }
    proof {
        assert(p@.take(p.len() as int) =~= p@);
    }
    true
}

/// `s` without its leading whitespace.
pub open spec fn trim_start(s: Seq<char>) -> Seq<char> {
    s.skip(run_len(s, CharClass::Blank) as int)
}

/// `s` without its trailing whitespace.
pub open spec fn trim_end(s: Seq<char>) -> Seq<char> {
    s.take(s.len() - back_run_len(s, CharClass::Blank))
}

/// `s` without whitespace at either end.
pub open spec fn trim(s: Seq<char>) -> Seq<char> {
    trim_end(trim_start(s))
}

pub fn trimmed_end(v: &Vec<char>) -> (out: Vec<char>)
    ensures
        out@ == trim_end(v@),
{
    let n = v.len();
    let b = scan_back(v, 0, n, CharClass::Blank);
    proof {
        assert(v@.subrange(0, n as int) =~= v@);
    }
    copy_range(v, 0, b)
}

pub fn trimmed(v: &Vec<char>) -> (out: Vec<char>)
    ensures
        out@ == trim(v@),
{
    let n = v.len();
    let a = scan_run(v, 0, n, CharClass::Blank);
    let b = scan_back(v, a, n, CharClass::Blank);
    proof {
        assert(v@.subrange(0, n as int) =~= v@);
        assert(v@.subrange(a as int, n as int) =~= trim_start(v@));
        assert(v@.subrange(a as int, b as int) =~= trim(v@));
    }
    copy_range(v, a, b)
}

/// The character sequences held by a vector of character vectors.
pub open spec fn rows(v: Seq<Vec<char>>) -> Seq<Seq<char>> {
    Seq::new(v.len(), |i: int| v[i]@)
}

/// The character sequences held by a vector of strings.
pub open spec fn texts(v: Seq<String>) -> Seq<Seq<char>> {
    Seq::new(v.len(), |i: int| v[i]@)
}

/// The character sequences held by a vector of string slices.
pub open spec fn strs(v: Seq<&str>) -> Seq<Seq<char>> {
    Seq::new(v.len(), |i: int| v[i]@)
}

/// Borrows every string of `v` as a slice.
pub fn as_strs(v: &Vec<String>) -> (out: Vec<&str>)
    ensures
        strs(out@) == texts(v@),
{
    let mut out: Vec<&str> = Vec::new();
    let mut i: usize = 0;
    while i < v.len()
        invariant
            i <= v.len(),
            strs(out@) == texts(v@).take(i as int),
        decreases v.len() - i,
    {
        let s = v[i].as_str();
        proof {
            assert(texts(v@).take(i + 1) =~= texts(v@).take(i as int).push(v@[i as int]@));
            assert(strs(out@.push(s)) =~= strs(out@).push(s@));
        }
        out.push(s);
        i += 1;
    }
    proof {
        assert(texts(v@).take(v.len() as int) =~= texts(v@));
    }
    out
}

/// The pieces of `s` between occurrences of `sep`; there is always at least
/// one piece, and a piece may be empty.
pub open spec fn split_on(s: Seq<char>, sep: char) -> Seq<Seq<char>>
    decreases s.len(),
{
    let k = run_len(s, CharClass::Except(sep));
    if k < s.len() {
        proof {
            lemma_run_len(s, CharClass::Except(sep));
        }
        seq![s.take(k as int)] + split_on(s.skip(k as int + 1), sep)
    } else {
        seq![s]
    }
}

pub fn split(v: &Vec<char>, sep: char) -> (out: Vec<Vec<char>>)
    ensures
        rows(out@) == split_on(v@, sep),
{
    let n = v.len();
    let mut out: Vec<Vec<char>> = Vec::new();
    let mut i: usize = 0;
    let mut k: usize = scan_run(v, 0, n, CharClass::Except(sep));
    proof {
        assert(v@.subrange(0, n as int) =~= v@.skip(0));
        assert(v@.skip(0) =~= v@);
        assert(rows(out@) + split_on(v@.skip(0), sep) =~= split_on(v@, sep));
    }
    while k < n
        invariant
            i <= k <= n,
            n == v.len(),
            k == i + run_len(v@.skip(i as int), CharClass::Except(sep)),
            rows(out@) + split_on(v@.skip(i as int), sep) == split_on(v@, sep),
        decreases n - i,
    {
        let piece = copy_range(v, i, k);
        proof {
            let rest = v@.skip(i as int);
            assert(rest.take(k - i) =~= piece@);
            assert(rest.skip(k - i + 1) =~= v@.skip(k + 1));
            assert(v@.subrange(k + 1, n as int) =~= v@.skip(k + 1));
            assert(rows(out@.push(piece)) =~= rows(out@) + seq![piece@]);
            assert((rows(out@) + seq![piece@]) + split_on(v@.skip(k + 1), sep) =~= rows(out@) + (
            seq![piece@] + split_on(v@.skip(k + 1), sep)));
        }
        out.push(piece);
        i = k + 1;
        k = scan_run(v, i, n, CharClass::Except(sep));
    }
    let piece = copy_range(v, i, n);
    proof {
        assert(v@.subrange(i as int, n as int) =~= v@.skip(i as int));
        assert(rows(out@.push(piece)) =~= rows(out@) + seq![piece@]);
    }
    out.push(piece);
    out
}

/// The maximal runs of non-whitespace characters of `s`, in order.
pub open spec fn words(s: Seq<char>) -> Seq<Seq<char>>
    decreases s.len(),
{
    let t = trim_start(s);
    let k = run_len(t, CharClass::NonBlank);
    if k > 0 {
        proof {
            lemma_run_len(s, CharClass::Blank);
            lemma_run_len(t, CharClass::NonBlank);
        }
        seq![t.take(k as int)] + words(t.skip(k as int))
    } else {
        Seq::empty()
    }
}

pub fn split_whitespace(v: &Vec<char>) -> (out: Vec<Vec<char>>)
    ensures
        rows(out@) == words(v@),
{
    let n = v.len();
    let mut out: Vec<Vec<char>> = Vec::new();
    let mut a: usize = scan_run(v, 0, n, CharClass::Blank);
    let mut b: usize = scan_run(v, a, n, CharClass::NonBlank);
    let ghost mut i: int = 0;
    proof {
        assert(v@.subrange(0, n as int) =~= v@.skip(0));
        assert(v@.skip(0) =~= v@);
        assert(v@.subrange(a as int, n as int) =~= trim_start(v@));
        assert(rows(out@) + words(v@.skip(0)) =~= words(v@));
    }
    while b > a
        invariant
            0 <= i <= a <= b <= n,
            n == v.len(),
            v@.skip(a as int) == trim_start(v@.skip(i)),
            b == a + run_len(v@.skip(a as int), CharClass::NonBlank),
            rows(out@) + words(v@.skip(i)) == words(v@),
        decreases n - a,
    {
        let word = copy_range(v, a, b);
        proof {
            let t = v@.skip(a as int);
            assert(t.take(b - a) =~= word@);
            assert(t.skip(b - a) =~= v@.skip(b as int));
            assert(rows(out@.push(word)) =~= rows(out@) + seq![word@]);
            assert((rows(out@) + seq![word@]) + words(v@.skip(b as int)) =~= rows(out@) + (
            seq![word@] + words(v@.skip(b as int))));
            i = b as int;
        }
        out.push(word);
        a = scan_run(v, b, n, CharClass::Blank);
        proof {
            assert(v@.subrange(b as int, n as int) =~= v@.skip(b as int));
            assert(v@.skip(b as int).skip(a - b) =~= v@.skip(a as int));
            assert(v@.subrange(a as int, n as int) =~= v@.skip(a as int));
        }
        b = scan_run(v, a, n, CharClass::NonBlank);
    }
    proof {
        assert(words(v@.skip(i)) =~= Seq::<Seq<char>>::empty());
        assert(rows(out@) + Seq::<Seq<char>>::empty() =~= rows(out@));
    }
    out
}

/// `parts` written one after another with `sep` between neighbours.
pub open spec fn join(parts: Seq<Seq<char>>, sep: char) -> Seq<char>
    decreases parts.len(),
{
    if parts.len() == 0 {
        Seq::empty()
    } else if parts.len() == 1 {
        parts[0]
    } else {
        join(parts.drop_last(), sep).push(sep) + parts.last()
    }
}

/// `n` copies of `c`.
pub open spec fn repeat(c: char, n: nat) -> Seq<char> {
    Seq::new(n, |i: int| c)
}

/// The greatest length among the members of `s`, zero when there is none.
pub open spec fn max_len<T>(s: Seq<Seq<T>>) -> nat
    decreases s.len(),
{
    if s.len() == 0 {
        0
    } else if s.last().len() > max_len(s.drop_last()) {
        s.last().len()
    } else {
        max_len(s.drop_last())
    }
}

/// `max_len` bounds every member and is reached by one of them.
pub proof fn lemma_max_len<T>(s: Seq<Seq<T>>)
    ensures
        forall|i: int| 0 <= i < s.len() ==> (#[trigger] s[i]).len() <= max_len(s),
        s.len() > 0 ==> exists|i: int| 0 <= i < s.len() && (#[trigger] s[i]).len() == max_len(s),
        s.len() == 0 ==> max_len(s) == 0,
    decreases s.len(),
{
    if s.len() > 0 {
        let t = s.drop_last();
        lemma_max_len(t);
        assert forall|i: int| 0 <= i < s.len() implies (#[trigger] s[i]).len() <= max_len(s) by {
            if i < s.len() - 1 {
                assert(s[i] == t[i]);
            }
        }
        if s.last().len() > max_len(t) {
            assert(s[s.len() - 1].len() == max_len(s));
        } else if t.len() > 0 {
            let i = choose|i: int| 0 <= i < t.len() && (#[trigger] t[i]).len() == max_len(t);
            assert(s[i] == t[i]);
        } else {
            assert(s[s.len() - 1].len() == max_len(s));
        }
    }
}

/// Appends the characters of `src` to `out`.
pub fn extend(out: &mut Vec<char>, src: &Vec<char>)
    ensures
        final(out)@ == old(out)@ + src@,
{
    let mut i: usize = 0;
    while i < src.len()
        invariant
            i <= src.len(),
            out@ == old(out)@ + src@.take(i as int),
        decreases src.len() - i,
    {
        out.push(src[i]);
        proof {
            assert(src@.take(i + 1) =~= src@.take(i as int).push(src@[i as int]));
            assert(out@ =~= old(out)@ + src@.take(i + 1));
        }
        i += 1;
    }
    proof {
        assert(src@.take(src.len() as int) =~= src@);
    }
}

/// Appends `n` copies of `c` to `out`.
pub fn push_repeat(out: &mut Vec<char>, c: char, n: usize)
    ensures
        final(out)@ == old(out)@ + repeat(c, n as nat),
{
    let mut i: usize = 0;
    while i < n
        invariant
            i <= n,
            out@ == old(out)@ + repeat(c, i as nat),
        decreases n - i,
    {
        out.push(c);
        proof {
            assert(out@ =~= old(out)@ + repeat(c, (i + 1) as nat));
        }
        i += 1;
    }
}

/// Joins the members of `parts` from `lo` up to `hi` with `sep`.
pub fn join_range(parts: &Vec<Vec<char>>, lo: usize, hi: usize, sep: char) -> (out: Vec<char>)
    requires
        lo <= hi <= parts.len(),
    ensures
        out@ == join(rows(parts@).subrange(lo as int, hi as int), sep),
{
    let mut out: Vec<char> = Vec::new();
    let mut i: usize = lo;
    while i < hi
        invariant
            lo <= i <= hi <= parts.len(),
            out@ == join(rows(parts@).subrange(lo as int, i as int), sep),
        decreases hi - i,
    {
        if i > lo {
            out.push(sep);
        }
        extend(&mut out, &parts[i]);
        proof {
            let next = rows(parts@).subrange(lo as int, i + 1);
            assert(next.drop_last() =~= rows(parts@).subrange(lo as int, i as int));
            assert(next.last() == parts@[i as int]@);
            if i == lo {
                assert(out@ =~= next[0]);
            }
        }
        i += 1;
    }
    out
}

/// The longest member's length.
pub fn longest<T>(v: &Vec<Vec<T>>) -> (n: usize)
    ensures
        n == max_len(Seq::new(v@.len(), |i: int| v@[i]@)),
{
    let ghost all = Seq::new(v@.len(), |i: int| v@[i]@);
    let mut n: usize = 0;
    let mut i: usize = 0;
    while i < v.len()
        invariant
            i <= v.len(),
            all == Seq::new(v@.len(), |i: int| v@[i]@),
            n == max_len(all.take(i as int)),
        decreases v.len() - i,
    {
        proof {
            assert(all.take(i + 1).drop_last() =~= all.take(i as int));
        }
        if v[i].len() > n {
            n = v[i].len();
        }
        i += 1;
    }
    proof {
        assert(all.take(v.len() as int) =~= all);
    }
    n
}

/// `max_len` looks at the members' lengths only.
pub proof fn lemma_max_len_by_lengths<A, B>(a: Seq<Seq<A>>, b: Seq<Seq<B>>)
    requires
        a.len() == b.len(),
        forall|i: int| 0 <= i < a.len() ==> (#[trigger] a[i]).len() == b[i].len(),
    ensures
        max_len(a) == max_len(b),
    decreases a.len(),
{
    if a.len() > 0 {
        assert(a.last().len() == b.last().len());
        assert forall|i: int| 0 <= i < a.drop_last().len() implies (#[trigger] a.drop_last()[i]).len()
            == b.drop_last()[i].len() by {
            assert(a[i].len() == b[i].len());
        }
        lemma_max_len_by_lengths(a.drop_last(), b.drop_last());
    }
}

/// `parts` written one after another.
pub open spec fn concat(parts: Seq<Seq<char>>) -> Seq<char>
    decreases parts.len(),
{
    if parts.len() == 0 {
        Seq::empty()
    } else {
        concat(parts.drop_last()) + parts.last()
    }
}

/// Whether `c` occurs nowhere in `s`.
pub open spec fn lacks(s: Seq<char>, c: char) -> bool {
    forall|j: int| 0 <= j < s.len() ==> s[j] != c
}

/// A text without the separator is its own single piece.
pub proof fn lemma_split_on_whole(s: Seq<char>, sep: char)
    requires
        lacks(s, sep),
    ensures
        split_on(s, sep) == seq![s],
{
    lemma_run_len_is(s, CharClass::Except(sep), s.len() as int);
}

/// No piece of a split holds the separator.
pub proof fn lemma_split_on_pieces(s: Seq<char>, sep: char)
    ensures
        split_on(s, sep).len() >= 1,
        forall|i: int| 0 <= i < split_on(s, sep).len() ==> lacks(#[trigger] split_on(s, sep)[i], sep),
    decreases s.len(),
{
    lemma_run_len(s, CharClass::Except(sep));
    let k = run_len(s, CharClass::Except(sep)) as int;
    if k < s.len() {
        let rest = s.skip(k + 1);
        lemma_split_on_pieces(rest, sep);
        assert forall|i: int| 0 <= i < split_on(s, sep).len() implies lacks(
            #[trigger] split_on(s, sep)[i],
            sep,
        ) by {
            if i > 0 {
                assert(split_on(s, sep)[i] == split_on(rest, sep)[i - 1]);
            }
        }
    }
}

/// Splitting goes through a separator piece by piece: the pieces of
/// `a`, `sep`, `b` in a row are the pieces of `a` followed by those of `b`.
pub proof fn lemma_split_on_concat(a: Seq<char>, b: Seq<char>, sep: char)
    ensures
        split_on(a.push(sep) + b, sep) == split_on(a, sep) + split_on(b, sep),
    decreases a.len(),
{
    let class = CharClass::Except(sep);
    let whole = a.push(sep) + b;
    lemma_run_len(a, class);
    let k = run_len(a, class) as int;
    assert forall|j: int| 0 <= j < k implies class.holds(#[trigger] whole[j]) by {
        assert(whole[j] == a[j]);
    }
    if k < a.len() {
        assert(whole[k] == a[k]);
    } else {
        assert(whole[k] == sep);
    }
    lemma_run_len_is(whole, class, k);
    assert(whole.take(k) =~= a.take(k));
    if k < a.len() {
        assert(whole.skip(k + 1) =~= a.skip(k + 1).push(sep) + b);
        lemma_split_on_concat(a.skip(k + 1), b, sep);
        assert(split_on(whole, sep) =~= split_on(a, sep) + split_on(b, sep));
    } else {
        assert(whole.skip(k + 1) =~= b);
        assert(a.take(k) =~= a);
        assert(split_on(whole, sep) =~= split_on(a, sep) + split_on(b, sep));
    }
}

/// Splitting undoes joining: parts that hold no separator come back from
/// their join as they were.
pub proof fn lemma_split_on_join(parts: Seq<Seq<char>>, sep: char)
    requires
        parts.len() >= 1,
        forall|i: int| 0 <= i < parts.len() ==> lacks(#[trigger] parts[i], sep),
    ensures
        split_on(join(parts, sep), sep) == parts,
    decreases parts.len(),
{
    if parts.len() == 1 {
        lemma_split_on_whole(parts[0], sep);
        assert(seq![parts[0]] =~= parts);
    } else {
        let init = parts.drop_last();
        assert forall|i: int| 0 <= i < init.len() implies lacks(#[trigger] init[i], sep) by {
            assert(init[i] == parts[i]);
        }
        lemma_split_on_join(init, sep);
        lemma_split_on_concat(join(init, sep), parts.last(), sep);
        lemma_split_on_whole(parts.last(), sep);
        assert(init + seq![parts.last()] =~= parts);
    }
}

/// A join begins with its first part, and where more parts follow, with
/// the separator right after it.
pub proof fn lemma_join_begins(parts: Seq<Seq<char>>, sep: char)
    requires
        parts.len() >= 1,
    ensures
        parts[0].is_prefix_of(join(parts, sep)),
        parts.len() >= 2 ==> parts[0].push(sep).is_prefix_of(join(parts, sep)),
    decreases parts.len(),
{
    if parts.len() >= 2 {
        let init = parts.drop_last();
        lemma_join_begins(init, sep);
        assert(init[0] == parts[0]);
        if parts.len() == 2 {
            assert(join(init, sep) == parts[0]);
        }
    }
}

/// The length of a join depends on the lengths of the parts only.
pub proof fn lemma_join_len_by_lengths(a: Seq<Seq<char>>, b: Seq<Seq<char>>, sep: char)
    requires
        a.len() == b.len(),
        forall|i: int| 0 <= i < a.len() ==> (#[trigger] a[i]).len() == b[i].len(),
    ensures
        join(a, sep).len() == join(b, sep).len(),
    decreases a.len(),
{
    if a.len() >= 1 {
        assert(a.last().len() == b.last().len());
        assert(a[0].len() == b[0].len());
        if a.len() >= 2 {
            assert forall|i: int| 0 <= i < a.drop_last().len() implies (#[trigger] a.drop_last()[i]).len()
                == b.drop_last()[i].len() by {
                assert(a[i].len() == b[i].len());
            }
            lemma_join_len_by_lengths(a.drop_last(), b.drop_last(), sep);
        }
    }
}

/// Trimming takes whitespace off both ends and nothing else: what is left
/// is one stretch of `s`, all before and after it is whitespace, and it
/// neither begins nor ends with whitespace.
pub proof fn lemma_trim(s: Seq<char>)
    ensures
        ({
            let a = run_len(s, CharClass::Blank) as int;
            let t = trim(s);
            &&& a + t.len() <= s.len()
            &&& t == s.subrange(a, a + t.len())
            &&& forall|j: int| 0 <= j < a ==> is_space(#[trigger] s[j])
            &&& forall|j: int| a + t.len() <= j < s.len() ==> is_space(#[trigger] s[j])
            &&& t.len() > 0 ==> !is_space(t[0]) && !is_space(t.last())
        }),
{
    let a = run_len(s, CharClass::Blank) as int;
    lemma_run_len(s, CharClass::Blank);
    let rest = s.skip(a);
    lemma_back_run_len(rest, CharClass::Blank);
    let t = trim(s);
    assert(t =~= s.subrange(a, a + t.len()));
    assert forall|j: int| 0 <= j < a implies is_space(#[trigger] s[j]) by {
        assert(CharClass::Blank.holds(s[j]));
    }
    assert forall|j: int| a + t.len() <= j < s.len() implies is_space(#[trigger] s[j]) by {
        assert(CharClass::Blank.holds(rest[j - a]));
    }
    if t.len() > 0 {
        assert(t[0] == s[a]);
        assert(!CharClass::Blank.holds(s[a]));
        assert(t.last() == rest[rest.len() - back_run_len(rest, CharClass::Blank) - 1]);
    }
}

/// Every word is non-empty and free of whitespace.
pub proof fn lemma_words(s: Seq<char>)
    ensures
        forall|i: int|
            0 <= i < words(s).len() ==> (#[trigger] words(s)[i]).len() > 0 && forall|j: int|
                0 <= j < words(s)[i].len() ==> !is_space(#[trigger] words(s)[i][j]),
    decreases s.len(),
{
    let t = trim_start(s);
    let k = run_len(t, CharClass::NonBlank) as int;
    lemma_run_len(s, CharClass::Blank);
    lemma_run_len(t, CharClass::NonBlank);
    if k > 0 {
        let rest = t.skip(k);
        lemma_words(rest);
        assert forall|i: int| 0 <= i < words(s).len() implies (#[trigger] words(s)[i]).len() > 0
            && forall|j: int| 0 <= j < words(s)[i].len() ==> !is_space(#[trigger] words(s)[i][j]) by {
            if i == 0 {
                assert(words(s)[0] == t.take(k));
                assert forall|j: int| 0 <= j < k implies !is_space(#[trigger] t.take(k)[j]) by {
                    assert(CharClass::NonBlank.holds(t[j]));
                }
            } else {
                assert(words(s)[i] == words(rest)[i - 1]);
            }
        }
    }
}

} // verus!
