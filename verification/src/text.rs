//! Character-level text utilities shared by the extractor, the prompt
//! builder and the dashboard: Unicode whitespace, word splitting, joining.
use vstd::prelude::*;

verus! {

/// Unicode `White_Space`, the property behind `char::is_whitespace`.
pub open spec fn is_ws(c: char) -> bool {
    let u = c as u32;
    ||| 0x09 <= u <= 0x0d
    ||| u == 0x20
    ||| u == 0x85
    ||| u == 0xa0
    ||| u == 0x1680
    ||| 0x2000 <= u <= 0x200a
    ||| u == 0x2028
    ||| u == 0x2029
    ||| u == 0x202f
    ||| u == 0x205f
    ||| u == 0x3000
}

/// Executable test for Unicode whitespace.
pub fn char_is_ws(c: char) -> (r: bool)
    ensures
        r == is_ws(c),
{
    let u = c as u32;
    (0x09 <= u && u <= 0x0d) || u == 0x20 || u == 0x85 || u == 0xa0 || u == 0x1680 || (0x2000
        <= u && u <= 0x200a) || u == 0x2028 || u == 0x2029 || u == 0x202f || u == 0x205f || u
        == 0x3000
}

/// Scanning state of a whitespace split: the finished words and the word in progress.
pub open spec fn word_scan(s: Seq<char>) -> (Seq<Seq<char>>, Seq<char>)
    decreases s.len(),
{
    if s.len() == 0 {
        (Seq::empty(), Seq::empty())
    } else {
        let (done, cur) = word_scan(s.drop_last());
        let c = s.last();
        if is_ws(c) {
            if cur.len() > 0 {
                (done.push(cur), Seq::empty())
            } else {
                (done, Seq::empty())
            }
        } else {
            (done, cur.push(c))
        }
    }
}

/// The maximal runs of non-whitespace characters, in order (`str::split_whitespace`).
pub open spec fn words(s: Seq<char>) -> Seq<Seq<char>> {
    let (done, cur) = word_scan(s);
    if cur.len() > 0 {
        done.push(cur)
    } else {
        done
    }
}

/// The parts joined by `sep` (`[T]::join`).
pub open spec fn join(parts: Seq<Seq<char>>, sep: Seq<char>) -> Seq<char>
    decreases parts.len(),
{
    if parts.len() == 0 {
        Seq::empty()
    } else if parts.len() == 1 {
        parts[0]
    } else {
        join(parts.drop_last(), sep) + sep + parts.last()
    }
}

/// Whitespace runs collapsed to one space, leading and trailing whitespace dropped.
pub open spec fn collapse_ws(s: Seq<char>) -> Seq<char> {
    join(words(s), seq![' '])
}

/// `w` is a non-empty run of non-whitespace characters.
pub open spec fn is_word(w: Seq<char>) -> bool {
    w.len() > 0 && forall|i: int| 0 <= i < w.len() ==> !is_ws(#[trigger] w[i])
}

/// Scanning only ever produces words, and the run in progress holds no whitespace.
pub proof fn lemma_word_scan_words(s: Seq<char>)
    ensures
        forall|i: int| 0 <= i < word_scan(s).0.len() ==> is_word(#[trigger] word_scan(s).0[i]),
        forall|i: int| 0 <= i < word_scan(s).1.len() ==> !is_ws(#[trigger] word_scan(s).1[i]),
    decreases s.len(),
{
    if s.len() > 0 {
        lemma_word_scan_words(s.drop_last());
        let (done, cur) = word_scan(s.drop_last());
        let c = s.last();
        if is_ws(c) {
            if cur.len() > 0 {
                assert(is_word(cur));
                assert forall|i: int| 0 <= i < done.push(cur).len() implies is_word(
                    #[trigger] done.push(cur)[i],
                ) by {
                    if i < done.len() {
                        assert(done.push(cur)[i] == done[i]);
                    }
                }
            }
        } else {
            assert forall|i: int| 0 <= i < cur.push(c).len() implies !is_ws(
                #[trigger] cur.push(c)[i],
            ) by {
                if i < cur.len() {
                    assert(cur.push(c)[i] == cur[i]);
                }
            }
        }
    }
}

/// Every item of `words(s)` is a word.
pub proof fn lemma_words_are_words(s: Seq<char>)
    ensures
        forall|i: int| 0 <= i < words(s).len() ==> is_word(#[trigger] words(s)[i]),
{
    lemma_word_scan_words(s);
}

/// Scanning further characters that are not whitespace extends the run in progress.
pub proof fn lemma_word_scan_extend(a: Seq<char>, w: Seq<char>)
    requires
        forall|i: int| 0 <= i < w.len() ==> !is_ws(#[trigger] w[i]),
    ensures
        word_scan(a + w) == (word_scan(a).0, word_scan(a).1 + w),
    decreases w.len(),
{
    if w.len() == 0 {
        assert(a + w =~= a);
        assert(word_scan(a).1 + w =~= word_scan(a).1);
    } else {
        let w0 = w.drop_last();
        lemma_word_scan_extend(a, w0);
        assert((a + w).drop_last() =~= a + w0);
        assert((a + w).last() == w.last());
        assert(word_scan(a).1 + w =~= (word_scan(a).1 + w0).push(w.last()));
    }
}

/// The words of `a`, a space and a word are those of `a` followed by that word.
pub proof fn lemma_words_append(a: Seq<char>, w: Seq<char>)
    requires
        is_word(w),
    ensures
        words(a + seq![' '] + w) == words(a).push(w),
{
    let b = a + seq![' '];
    assert(b.drop_last() =~= a);
    assert(b.last() == ' ');
    assert(word_scan(b) == (words(a), Seq::<char>::empty()));
    lemma_word_scan_extend(b, w);
    assert(Seq::<char>::empty() + w =~= w);
}

/// The words of a single word are that word.
pub proof fn lemma_words_single(w: Seq<char>)
    requires
        is_word(w),
    ensures
        words(w) == seq![w],
{
    lemma_word_scan_extend(Seq::empty(), w);
    assert(Seq::<char>::empty() + w =~= w);
    assert(Seq::<char>::empty() + w =~= w);
    assert(Seq::<Seq<char>>::empty().push(w) =~= seq![w]);
}

/// Splitting words joined by single spaces gives the words back.
pub proof fn lemma_words_of_join(ws: Seq<Seq<char>>)
    requires
        forall|i: int| 0 <= i < ws.len() ==> is_word(#[trigger] ws[i]),
    ensures
        words(join(ws, seq![' '])) == ws,
    decreases ws.len(),
{
    if ws.len() == 0 {
        assert(words(Seq::<char>::empty()) =~= ws);
    } else if ws.len() == 1 {
        assert(is_word(ws[0]));
        lemma_words_single(ws[0]);
        assert(seq![ws[0]] =~= ws);
    } else {
        let init = ws.drop_last();
        assert forall|i: int| 0 <= i < init.len() implies is_word(#[trigger] init[i]) by {
            assert(init[i] == ws[i]);
        }
        lemma_words_of_join(init);
        assert(is_word(ws[ws.len() - 1]));
        lemma_words_append(join(init, seq![' ']), ws.last());
        assert(init.push(ws.last()) =~= ws);
    }
}

/// Collapsing whitespace twice is collapsing it once.
pub proof fn lemma_collapse_ws_idempotent(s: Seq<char>)
    ensures
        collapse_ws(collapse_ws(s)) == collapse_ws(s),
{
    lemma_words_are_words(s);
    lemma_words_of_join(words(s));
}

#[verifier::external_body]
pub(crate) fn push_char(s: &mut String, c: char)
    ensures
        final(s)@ == old(s)@.push(c),
{
    s.push(c);
}

/// The characters of `s`, in order.
pub fn chars_of(s: &str) -> (r: Vec<char>)
    ensures
        r@ == s@,
{
    broadcast use vstd::string::group_string_axioms;

    let mut r: Vec<char> = Vec::new();
    for c in it: s.chars()
        invariant
            it.seq() == s@,
            r@ == it.seq().take(it.index() as int),
    {
        r.push(c);
    }
    r
}

/// Appends the characters `cs` to `out`.
pub fn push_chars(out: &mut String, cs: &Vec<char>)
    ensures
        final(out)@ == old(out)@ + cs@,
{
    let mut i: usize = 0;
    while i < cs.len()
        invariant
            0 <= i <= cs.len(),
            out@ == old(out)@ + cs@.take(i as int),
        decreases cs.len() - i,
    {
        proof {
            assert(cs@.take(i + 1) == cs@.take(i as int).push(cs@[i as int]));
        }
        push_char(out, cs[i]);
        i += 1;
    }
    assert(cs@.take(cs.len() as int) == cs@);
}

/// A string holding the characters `cs`.
pub fn string_of(cs: &Vec<char>) -> (r: String)
    ensures
        r@ == cs@,
{
    let mut r = String::new();
    push_chars(&mut r, cs);
    r
}

/// Whitespace runs collapsed to one space and the ends trimmed (`split_whitespace` joined by `' '`).
pub fn collapse_whitespace(value: &str) -> (r: String)
    ensures
        r@ == collapse_ws(value@),
{
    let chars = chars_of(value);
    let mut out = String::new();
    let mut cur: Vec<char> = Vec::new();
    let mut any = false;
    let mut i: usize = 0;
    while i < chars.len()
        invariant
            0 <= i <= chars.len(),
            chars@ == value@,
            word_scan(chars@.take(i as int)).1 == cur@,
            join(word_scan(chars@.take(i as int)).0, seq![' ']) == out@,
            any == (word_scan(chars@.take(i as int)).0.len() > 0),
        decreases chars.len() - i,
    {
        let c = chars[i];
        let ghost pre = chars@.take(i as int);
        proof {
            assert(chars@.take(i + 1).drop_last() == pre);
            assert(chars@.take(i + 1).last() == c);
        }
        if char_is_ws(c) {
            if cur.len() > 0 {
                proof {
                    let d = word_scan(pre).0;
                    assert(d.push(cur@).drop_last() == d);
                }
                if any {
                    push_char(&mut out, ' ');
                }
                push_chars(&mut out, &cur);
                cur = Vec::new();
                any = true;
            }
        } else {
            cur.push(c);
        }
        i += 1;
    }
    assert(chars@.take(chars.len() as int) == chars@);
    if cur.len() > 0 {
        proof {
            let d = word_scan(chars@).0;
            assert(d.push(cur@).drop_last() == d);
        }
        if any {
            push_char(&mut out, ' ');
        }
        push_chars(&mut out, &cur);
    }
    out
}

/// Leading whitespace removed (`str::trim_start`).
pub open spec fn trim_start(s: Seq<char>) -> Seq<char>
    decreases s.len(),
{
    if s.len() > 0 && is_ws(s[0]) {
        trim_start(s.drop_first())
    } else {
        s
    }
}

/// Trailing whitespace removed (`str::trim_end`).
pub open spec fn trim_end(s: Seq<char>) -> Seq<char>
    decreases s.len(),
{
    if s.len() > 0 && is_ws(s.last()) {
        trim_end(s.drop_last())
    } else {
        s
    }
}

/// Whitespace removed at both ends (`str::trim`).
pub open spec fn trim(s: Seq<char>) -> Seq<char> {
    trim_end(trim_start(s))
}

/// Trimming the start drops a prefix, and what is left starts with a
/// character that is not whitespace.
pub proof fn lemma_trim_start_shape(s: Seq<char>)
    ensures
        exists|k: int| 0 <= k <= s.len() && #[trigger] s.skip(k) == trim_start(s),
        trim_start(s).len() > 0 ==> !is_ws(trim_start(s)[0]),
    decreases s.len(),
{
    if s.len() > 0 && is_ws(s[0]) {
        lemma_trim_start_shape(s.drop_first());
        let k = choose|k: int| 0 <= k <= s.drop_first().len() && #[trigger] s.drop_first().skip(k)
            == trim_start(s.drop_first());
        assert(s.skip(k + 1) =~= s.drop_first().skip(k));
    } else {
        assert(s.skip(0) =~= s);
    }
}

/// Trimming the end drops a suffix, and what is left ends with a character
/// that is not whitespace.
pub proof fn lemma_trim_end_shape(s: Seq<char>)
    ensures
        trim_end(s).len() <= s.len(),
        s.take(trim_end(s).len() as int) == trim_end(s),
        trim_end(s).len() > 0 ==> !is_ws(trim_end(s).last()),
    decreases s.len(),
{
    if s.len() > 0 && is_ws(s.last()) {
        lemma_trim_end_shape(s.drop_last());
        let t = trim_end(s.drop_last());
        assert(s.take(t.len() as int) =~= s.drop_last().take(t.len() as int));
    } else {
        assert(s.take(s.len() as int) =~= s);
    }
}

/// A trimmed text is a slice of the untrimmed text whose ends are not whitespace.
pub proof fn lemma_trim_shape(s: Seq<char>)
    ensures
        exists|a: int, b: int| 0 <= a <= b <= s.len() && #[trigger] s.subrange(a, b) == trim(s),
        trim(s).len() > 0 ==> !is_ws(trim(s)[0]) && !is_ws(trim(s).last()),
{
    lemma_trim_start_shape(s);
    let k = choose|k: int| 0 <= k <= s.len() && #[trigger] s.skip(k) == trim_start(s);
    let u = trim_start(s);
    lemma_trim_end_shape(u);
    let m = trim(s).len();
    assert(s.subrange(k, k + m) =~= u.take(m as int));
    if m > 0 {
        assert(trim(s)[0] == u[0]);
    }
}

/// Text that neither starts nor ends with whitespace is its own trim.
pub proof fn lemma_trim_noop(s: Seq<char>)
    requires
        s.len() > 0,
        !is_ws(s[0]),
        !is_ws(s.last()),
    ensures
        trim(s) == s,
{
    assert(trim_start(s) == s);
    assert(trim_end(s) == s);
}

/// Trimming twice trims no more than trimming once.
pub proof fn lemma_trim_idempotent(s: Seq<char>)
    ensures
        trim(trim(s)) == trim(s),
{
    lemma_trim_shape(s);
    if trim(s).len() > 0 {
        lemma_trim_noop(trim(s));
    } else {
        assert(trim_start(trim(s)) == trim(s));
        assert(trim_end(trim(s)) == trim(s));
    }
}

/// Index of the first occurrence of `pat` in `s` at or after `from`.
pub open spec fn find_from(s: Seq<char>, pat: Seq<char>, from: int) -> Option<int>
    decreases s.len() + 1 - from,
{
    if from < 0 || from + pat.len() > s.len() {
        None
    } else if s.subrange(from, from + pat.len()) == pat {
        Some(from)
    } else {
        find_from(s, pat, from + 1)
    }
}

/// A found occurrence lies in range and matches `pat`.
pub proof fn lemma_find_from_found(s: Seq<char>, pat: Seq<char>, from: int)
    ensures
        find_from(s, pat, from) matches Some(i) ==> {
            &&& from <= i
            &&& i + pat.len() <= s.len()
            &&& s.subrange(i, i + pat.len()) == pat
        },
    decreases s.len() + 1 - from,
{
    if from < 0 || from + pat.len() > s.len() {
    } else if s.subrange(from, from + pat.len()) == pat {
    } else {
        lemma_find_from_found(s, pat, from + 1);
    }
}

/// A search for one character finds its first occurrence, or reports that
/// there is none.
pub proof fn lemma_find_char(s: Seq<char>, c: char, from: int)
    requires
        0 <= from,
    ensures
        find_from(s, seq![c], from) matches Some(i) ==> from <= i < s.len() && s[i] == c && (
        forall|j: int| from <= j < i ==> #[trigger] s[j] != c),
        find_from(s, seq![c], from) is None ==> forall|j: int|
            from <= j < s.len() ==> #[trigger] s[j] != c,
    decreases s.len() + 1 - from,
{
    if from + 1 > s.len() {
    } else if s.subrange(from, from + 1) == seq![c] {
        assert(s.subrange(from, from + 1)[0] == s[from]);
    } else {
        assert(s.subrange(from, from + 1) =~= seq![s[from]]);
        lemma_find_char(s, c, from + 1);
    }
}

/// Index of the first occurrence of `pat` in `s` (`str::find`).
pub open spec fn find(s: Seq<char>, pat: Seq<char>) -> Option<int> {
    find_from(s, pat, 0)
}

/// `pat` occurs somewhere in `s` (`str::contains`).
pub open spec fn contains(s: Seq<char>, pat: Seq<char>) -> bool {
    find(s, pat) is Some
}

/// `s` begins with `pat` (`str::starts_with`).
pub open spec fn starts_with(s: Seq<char>, pat: Seq<char>) -> bool {
    pat.len() <= s.len() && s.take(pat.len() as int) == pat
}

/// ASCII letters lowered, everything else kept (`char::to_ascii_lowercase`).
pub open spec fn ascii_lower_char(c: char) -> char {
    if 'A' <= c <= 'Z' {
        ((c as u32) + 32) as char
    } else {
        c
    }
}

/// ASCII letters lowered throughout (`str::to_ascii_lowercase`).
pub open spec fn ascii_lower(s: Seq<char>) -> Seq<char> {
    s.map_values(|c: char| ascii_lower_char(c))
}

/// Executable `char::to_ascii_lowercase`.
pub fn lower_ascii_char(c: char) -> (r: char)
    ensures
        r == ascii_lower_char(c),
{
    if 'A' <= c && c <= 'Z' {
        let u = (c as u32) + 32;
        assert(0x61 <= u <= 0x7a);
        char_from_ascii(u)
    } else {
        c
    }
}

/// The ASCII character with code `u`.
fn char_from_ascii(u: u32) -> (r: char)
    requires
        u < 0x80,
    ensures
        r == u as char,
{
    (u as u8) as char
}

/// ASCII-lowered copy of `cs`.
pub fn lower_ascii(cs: &Vec<char>) -> (r: Vec<char>)
    ensures
        r@ == ascii_lower(cs@),
{
    let mut r: Vec<char> = Vec::new();
    let mut i: usize = 0;
    while i < cs.len()
        invariant
            0 <= i <= cs.len(),
            r@ == ascii_lower(cs@.take(i as int)),
        decreases cs.len() - i,
    {
        let c = lower_ascii_char(cs[i]);
        r.push(c);
        proof {
            assert(cs@.take(i + 1) == cs@.take(i as int).push(cs@[i as int]));
        }
        i += 1;
    }
    assert(cs@.take(cs.len() as int) == cs@);
    r
}

/// Copy of `cs[lo..hi]`.
pub fn slice_chars(cs: &Vec<char>, lo: usize, hi: usize) -> (r: Vec<char>)
    requires
        lo <= hi <= cs.len(),
    ensures
        r@ == cs@.subrange(lo as int, hi as int),
{
    let mut r: Vec<char> = Vec::new();
    let mut i: usize = lo;
    while i < hi
        invariant
            lo <= i <= hi <= cs.len(),
            r@ == cs@.subrange(lo as int, i as int),
        decreases hi - i,
    {
        r.push(cs[i]);
        proof {
            assert(cs@.subrange(lo as int, i + 1) == cs@.subrange(lo as int, i as int).push(
                cs@[i as int],
            ));
        }
        i += 1;
    }
    r
}

/// Position of the first non-whitespace character.
pub fn trim_start_index(cs: &Vec<char>) -> (k: usize)
    ensures
        k <= cs.len(),
        trim_start(cs@) == cs@.skip(k as int),
{
    let mut k: usize = 0;
    assert(cs@.skip(0) == cs@);
    while k < cs.len() && char_is_ws(cs[k])
        invariant
            0 <= k <= cs.len(),
            trim_start(cs@) == trim_start(cs@.skip(k as int)),
        decreases cs.len() - k,
    {
        assert(cs@.skip(k as int).drop_first() == cs@.skip(k + 1));
        k += 1;
    }
    k
}

/// One past the last non-whitespace character of `cs[lo..]`.
pub fn trim_end_index(cs: &Vec<char>, lo: usize) -> (k: usize)
    requires
        lo <= cs.len(),
    ensures
        lo <= k <= cs.len(),
        trim_end(cs@.skip(lo as int)) == cs@.subrange(lo as int, k as int),
{
    let mut k: usize = cs.len();
    assert(cs@.skip(lo as int) == cs@.subrange(lo as int, cs.len() as int));
    while k > lo && char_is_ws(cs[k - 1])
        invariant
            lo <= k <= cs.len(),
            trim_end(cs@.skip(lo as int)) == trim_end(cs@.subrange(lo as int, k as int)),
        decreases k,
    {
        assert(cs@.subrange(lo as int, k as int).drop_last() == cs@.subrange(
            lo as int,
            k - 1,
        ));
        k -= 1;
    }
    k
}

/// Copy of `cs` with whitespace trimmed at both ends.
pub fn trim_chars(cs: &Vec<char>) -> (r: Vec<char>)
    ensures
        r@ == trim(cs@),
{
    let lo = trim_start_index(cs);
    let hi = trim_end_index(cs, lo);
    slice_chars(cs, lo, hi)
}

/// Copy of `cs` with leading whitespace removed.
pub fn trim_start_chars(cs: &Vec<char>) -> (r: Vec<char>)
    ensures
        r@ == trim_start(cs@),
{
    let lo = trim_start_index(cs);
    slice_chars(cs, lo, cs.len())
}

/// `cs[at..]` begins with `pat`.
pub fn starts_with_at(cs: &Vec<char>, at: usize, pat: &Vec<char>) -> (r: bool)
    requires
        at <= cs.len(),
    ensures
        r == starts_with(cs@.skip(at as int), pat@),
{
    if pat.len() > cs.len() - at {
        return false;
    }
    let mut j: usize = 0;
    while j < pat.len()
        invariant
            0 <= j <= pat.len(),
            at + pat.len() <= cs.len(),
            forall|t: int| 0 <= t < j ==> cs@[at + t] == pat@[t],
        decreases pat.len() - j,
    {
        if cs[at + j] != pat[j] {
            assert(cs@.skip(at as int).take(pat.len() as int)[j as int] != pat@[j as int]);
            return false;
        }
        j += 1;
    }
    assert(cs@.skip(at as int).take(pat.len() as int) =~= pat@);
    true
}

/// Index of the first occurrence of `pat` in `cs` at or after `from`.
pub fn find_chars(cs: &Vec<char>, pat: &Vec<char>, from: usize) -> (r: Option<usize>)
    requires
        from <= cs.len(),
    ensures
        r matches Some(i) ==> find_from(cs@, pat@, from as int) == Some(i as int),
        r is None ==> find_from(cs@, pat@, from as int) is None,
{
    let mut i: usize = from;
    while i <= cs.len()
        invariant
            from <= i,
            i <= cs.len() + 1,
            find_from(cs@, pat@, from as int) == find_from(cs@, pat@, i as int),
        decreases cs.len() + 1 - i,
    {
        if pat.len() > cs.len() - i {
            return None;
        }
        if starts_with_at(cs, i, pat) {
            assert(cs@.skip(i as int).take(pat.len() as int) == cs@.subrange(
                i as int,
                i + pat.len(),
            ));
            return Some(i);
        }
        assert(cs@.skip(i as int).take(pat.len() as int) == cs@.subrange(
            i as int,
            i + pat.len(),
        ));
        assert(i < cs.len()) by {
            if i == cs.len() {
                assert(cs@.skip(i as int).take(0) =~= pat@);
            }
        }
        i += 1;
    }
    None
}

/// A string holding `cs[lo..hi]`.
pub fn string_of_range(cs: &Vec<char>, lo: usize, hi: usize) -> (r: String)
    requires
        lo <= hi <= cs.len(),
    ensures
        r@ == cs@.subrange(lo as int, hi as int),
{
    let v = slice_chars(cs, lo, hi);
    string_of(&v)
}

/// `a` holds exactly the characters of `b`.
pub fn chars_equal(a: &Vec<char>, b: &str) -> (r: bool)
    ensures
        r == (a@ == b@),
{
    let bs = chars_of(b);
    same_chars(a, &bs)
}

/// `a` and `bs` hold the same characters.
pub fn same_chars(a: &Vec<char>, bs: &Vec<char>) -> (r: bool)
    ensures
        r == (a@ == bs@),
{
    if a.len() != bs.len() {
        return false;
    }
    let mut i: usize = 0;
    while i < a.len()
        invariant
            0 <= i <= a.len(),
            a.len() == bs.len(),
            forall|t: int| 0 <= t < i ==> a@[t] == bs@[t],
        decreases a.len() - i,
    {
        if a[i] != bs[i] {
            return false;
        }
        i += 1;
    }
    assert(a@ =~= bs@);
    true
}

/// Appends the characters of `s` to `out`.
pub fn push_str(out: &mut String, s: &str)
    ensures
        final(out)@ == old(out)@ + s@,
{
    let cs = chars_of(s);
    push_chars(out, &cs);
}

/// The text of each string.
pub open spec fn texts(values: Seq<String>) -> Seq<Seq<char>> {
    values.map_values(|v: String| v@)
}

/// The length in bytes of the UTF-8 encoding of `s`, as `str::len` reports it.
pub open spec fn byte_len(s: Seq<char>) -> usize {
    vstd::utf8::encode_utf8(s).len() as usize
}

/// The deep view of a vector of strings is the text of each.
pub proof fn lemma_deep_texts(v: Vec<String>)
    ensures
        v.deep_view() == texts(v@),
{
    assert(v.deep_view() =~= texts(v@));
}

/// The whitespace-separated words of `value` (`str::split_whitespace`).
pub fn split_words(value: &str) -> (r: Vec<String>)
    ensures
        texts(r@) == words(value@),
{
    let chars = chars_of(value);
    let mut out: Vec<String> = Vec::new();
    let mut cur: Vec<char> = Vec::new();
    let mut i: usize = 0;
    while i < chars.len()
        invariant
            0 <= i <= chars.len(),
            chars@ == value@,
            word_scan(chars@.take(i as int)).1 == cur@,
            word_scan(chars@.take(i as int)).0 == texts(out@),
        decreases chars.len() - i,
    {
        let c = chars[i];
        proof {
            assert(chars@.take(i + 1).drop_last() == chars@.take(i as int));
            assert(chars@.take(i + 1).last() == c);
        }
        if char_is_ws(c) {
            if cur.len() > 0 {
                let w = string_of(&cur);
                proof {
                    assert(texts(out@.push(w)) == texts(out@).push(w@));
                }
                out.push(w);
                cur = Vec::new();
            }
        } else {
            cur.push(c);
        }
        i += 1;
    }
    assert(chars@.take(chars.len() as int) == chars@);
    if cur.len() > 0 {
        let w = string_of(&cur);
        proof {
            assert(texts(out@.push(w)) == texts(out@).push(w@));
        }
        out.push(w);
    }
    out
}

/// The first `n` parts joined by `sep`.
pub fn join_first(parts: &Vec<String>, n: usize, sep: &str) -> (r: String)
    ensures
        r@ == join(texts(parts@).take(if n < parts@.len() { n as int } else { parts@.len() as int }), sep@),
{
    let limit = if n < parts.len() {
        n
    } else {
        parts.len()
    };
    let mut out = String::new();
    let mut i: usize = 0;
    while i < limit
        invariant
            0 <= i <= limit <= parts.len(),
            out@ == join(texts(parts@).take(i as int), sep@),
        decreases limit - i,
    {
        proof {
            let t = texts(parts@).take(i + 1);
            assert(t.drop_last() == texts(parts@).take(i as int));
            assert(t.last() == parts@[i as int]@);
        }
        if i > 0 {
            push_str(&mut out, sep);
        }
        push_str(&mut out, parts[i].as_str());
        proof {
            if i == 0 {
                assert(texts(parts@).take(1).len() == 1);
                assert(out@ == texts(parts@).take(1)[0]);
            }
        }
        i += 1;
    }
    out
}

/// All parts joined by `sep`.
pub fn join_strings(parts: &Vec<String>, sep: &str) -> (r: String)
    ensures
        r@ == join(texts(parts@), sep@),
{
    let r = join_first(parts, parts.len(), sep);
    assert(texts(parts@).take(parts@.len() as int) == texts(parts@));
    r
}

} // verus!
