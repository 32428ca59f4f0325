//! An inverted index for text search: each token maps to the sorted ids of
//! the documents that hold it.

use vstd::prelude::*;
use crate::map::{AHashMap, MAX_ENTRIES};

verus! {

/// Whether `c` is white space in Unicode's sense (the White_Space
/// property), as `char::is_whitespace` decides: tab, line feed, vertical
/// tab, form feed, carriage return, space, next line, no-break space, ogham
/// space mark, the spaces from en quad to hair space, line and paragraph
/// separators, narrow no-break space, medium mathematical space and
/// ideographic space.
pub open spec fn unicode_is_whitespace(c: char) -> bool {
    let n = c as u32;
    ||| 0x09 <= n <= 0x0D
    ||| n == 0x20
    ||| n == 0x85
    ||| n == 0xA0
    ||| n == 0x1680
    ||| 0x2000 <= n <= 0x200A
    ||| n == 0x2028
    ||| n == 0x2029
    ||| n == 0x202F
    ||| n == 0x205F
    ||| n == 0x3000
}

/// Whether `char::is_alphanumeric` holds of `c`.
pub uninterp spec fn unicode_is_alphanumeric(c: char) -> bool;

/// The characters that `str::to_lowercase` gives for the string `s`.
pub uninterp spec fn unicode_lowercase(s: Seq<char>) -> Seq<char>;

/// Whether `c` is white space, as [`unicode_is_whitespace`] lists it.
fn is_whitespace(c: char) -> (b: bool)
    ensures
        b == unicode_is_whitespace(c),
{
    let n = c as u32;
    (0x09 <= n && n <= 0x0D) || n == 0x20 || n == 0x85 || n == 0xA0 || n == 0x1680 || (0x2000 <= n && n <= 0x200A)
        || n == 0x2028 || n == 0x2029 || n == 0x202F || n == 0x205F || n == 0x3000
}

/// Calls `char::is_alphanumeric`. The answer is a property of the character
/// alone (Unicode's Alphabetic or Numeric), so it is named as a function of
/// `c`.
#[verifier::external_body]
fn is_alphanumeric(c: char) -> (b: bool)
    ensures
        b == unicode_is_alphanumeric(c),
{
    c.is_alphanumeric()
}

/// Calls `str::to_lowercase` on the string made of `chars`. The result
/// depends on the characters alone, so it is named as a function of them;
/// the one fact stated besides is that the empty string lowercases to the
/// empty string.
#[verifier::external_body]
fn lowercase_of(chars: &[char]) -> (r: String)
    ensures
        r@ == unicode_lowercase(chars@),
        chars@.len() == 0 ==> r@.len() == 0,
{
    chars.iter().collect::<String>().to_lowercase()
}

/// The characters of `s`, in order.
pub(crate) fn chars_of(s: &str) -> (r: Vec<char>)
    ensures
        r@ == s@,
{
    broadcast use vstd::string::axiom_spec_iter;
    let mut out: Vec<char> = Vec::new();
    for c in it: s.chars()
        invariant
            out@ == it.seq().take(it.index() as int),
    {
        out.push(c);
    }
    out
}

/// The tokens `toks` so far with the word whose letters and digits are
/// `cur` added, when it lowercases to something.
pub open spec fn close_word(toks: Seq<Seq<char>>, cur: Seq<char>) -> Seq<Seq<char>> {
    if unicode_lowercase(cur).len() > 0 {
        toks.push(unicode_lowercase(cur))
    } else {
        toks
    }
}

/// Reading `s`: the tokens of its finished words, and the letters and
/// digits of the word in progress.
pub open spec fn token_state(s: Seq<char>) -> (Seq<Seq<char>>, Seq<char>)
    decreases s.len(),
{
    if s.len() == 0 {
        (Seq::empty(), Seq::empty())
    } else {
        let (toks, cur) = token_state(s.drop_last());
        let c = s.last();
        if unicode_is_whitespace(c) {
            (close_word(toks, cur), Seq::empty())
        } else if unicode_is_alphanumeric(c) {
            (toks, cur.push(c))
        } else {
            (toks, cur)
        }
    }
}

/// The tokens of `s`: its whitespace-separated words, each kept to its
/// letters and digits and lowercased, without the empty ones.
pub open spec fn tokens(s: Seq<char>) -> Seq<Seq<char>> {
    close_word(token_state(s).0, token_state(s).1)
}

/// Reading a word whose every character is a letter or digit (and no
/// white space) finishes no token and keeps every character of it.
proof fn lemma_word_state(w: Seq<char>)
    requires
        forall|i: int| 0 <= i < w.len() ==> unicode_is_alphanumeric(#[trigger] w[i]) && !unicode_is_whitespace(w[i]),
    ensures
        token_state(w) == (Seq::<Seq<char>>::empty(), w),
    decreases w.len(),
{
    if w.len() > 0 {
        let t = w.drop_last();
        assert forall|i: int| 0 <= i < t.len() implies unicode_is_alphanumeric(#[trigger] t[i]) && !unicode_is_whitespace(t[i]) by {
            assert(t[i] == w[i]);
        }
        lemma_word_state(t);
        assert(w.last() == w[w.len() - 1]);
        assert(t.push(w.last()) =~= w);
    }
}

/// Two texts read to the same state read to the same state after the same
/// continuation.
proof fn lemma_state_congruent(x: Seq<char>, y: Seq<char>, b: Seq<char>)
    requires
        token_state(x) == token_state(y),
    ensures
        token_state(x + b) == token_state(y + b),
    decreases b.len(),
{
    if b.len() > 0 {
        lemma_state_congruent(x, y, b.drop_last());
        assert((x + b).drop_last() =~= x + b.drop_last());
        assert((y + b).drop_last() =~= y + b.drop_last());
        assert((x + b).last() == b.last());
        assert((y + b).last() == b.last());
    }
}

/// After a text whose last word is finished, a continuation adds its own
/// tokens and leaves its own word in progress.
proof fn lemma_state_after_break(x: Seq<char>, b: Seq<char>)
    requires
        token_state(x).1.len() == 0,
    ensures
        token_state(x + b) == (token_state(x).0 + token_state(b).0, token_state(b).1),
    decreases b.len(),
{
    if b.len() == 0 {
        assert(x + b =~= x);
        assert(token_state(x).0 + Seq::<Seq<char>>::empty() =~= token_state(x).0);
    } else {
        lemma_state_after_break(x, b.drop_last());
        assert((x + b).drop_last() =~= x + b.drop_last());
        assert((x + b).last() == b.last());
        let (tb, cb) = token_state(b.drop_last());
        assert(close_word(token_state(x).0 + tb, cb) =~= token_state(x).0 + close_word(tb, cb));
    }
}

/// What tokenizing gives, for every text: a word made only of letters and
/// digits is one token, the word lowercased (none if that is empty); white
/// space separates the tokens of what comes before and after it; and a
/// character that is neither white space nor a letter or digit is dropped
/// without splitting its word.
pub proof fn lemma_tokens_laws(w: Seq<char>, a: Seq<char>, b: Seq<char>, c: char)
    ensures
        (forall|i: int| 0 <= i < w.len() ==> unicode_is_alphanumeric(#[trigger] w[i]) && !unicode_is_whitespace(w[i]))
            ==> tokens(w) == (if unicode_lowercase(w).len() > 0 {
            seq![unicode_lowercase(w)]
        } else {
            Seq::<Seq<char>>::empty()
        }),
        unicode_is_whitespace(c) ==> tokens(a + seq![c] + b) == tokens(a) + tokens(b),
        !unicode_is_whitespace(c) && !unicode_is_alphanumeric(c) ==> tokens(a + seq![c] + b) == tokens(a + b),
{
    if forall|i: int| 0 <= i < w.len() ==> unicode_is_alphanumeric(#[trigger] w[i]) && !unicode_is_whitespace(w[i]) {
        lemma_word_state(w);
        assert(Seq::<Seq<char>>::empty().push(unicode_lowercase(w)) =~= seq![unicode_lowercase(w)]);
    }
    let ac = a + seq![c];
    assert(ac.drop_last() =~= a);
    assert(ac.last() == c);
    if unicode_is_whitespace(c) {
        lemma_state_after_break(ac, b);
        let (ta, ca) = token_state(a);
        let (tb, cb) = token_state(b);
        assert(close_word(close_word(ta, ca) + tb, cb) =~= close_word(ta, ca) + close_word(tb, cb));
    }
    if !unicode_is_whitespace(c) && !unicode_is_alphanumeric(c) {
        lemma_state_congruent(ac, a, b);
    }
}

/// `s` is strictly increasing.
pub open spec fn sorted_ids(s: Seq<usize>) -> bool {
    forall|i: int, j: int| 0 <= i < j < s.len() ==> s[i] < s[j]
}

/// Where `x` stands in the increasing `v`: its position, or the position
/// it would be inserted at.
pub fn search_sorted(v: &Vec<usize>, x: usize) -> (r: Result<usize, usize>)
    requires
        sorted_ids(v@),
    ensures
        match r {
            Ok(i) => i < v@.len() && v@[i as int] == x,
            Err(i) => i <= v@.len() && !v@.contains(x) && (forall|j: int| 0 <= j < i ==> v@[j] < x) && (forall|j: int|
                i <= j < v@.len() ==> v@[j] > x),
        },
{
    let mut lo: usize = 0;
    let mut hi: usize = v.len();
    while lo < hi
        invariant
            sorted_ids(v@),
            lo <= hi <= v@.len(),
            forall|j: int| 0 <= j < lo ==> v@[j] < x,
            forall|j: int| hi <= j < v@.len() ==> v@[j] > x,
        decreases hi - lo,
    {
        let mid = lo + (hi - lo) / 2;
        if v[mid] == x {
            return Ok(mid);
        } else if v[mid] < x {
            lo = mid + 1;
        } else {
            hi = mid;
        }
    }
    proof {
        assert(!v@.contains(x)) by {
            if v@.contains(x) {
                let j = choose|j: int| 0 <= j < v@.len() && v@[j] == x;
            }
        }
    }
    Err(lo)
}

/// Adds `x` to the increasing `v`, unless it is there.
fn insert_sorted(v: &mut Vec<usize>, x: usize)
    requires
        sorted_ids(old(v)@),
    ensures
        sorted_ids(final(v)@),
        forall|y: usize| final(v)@.contains(y) <==> (old(v)@.contains(y) || y == x),
{
    match search_sorted(v, x) {
        Ok(_) => {},
        Err(pos) => {
            v.insert(pos, x);
            proof {
                assert forall|y: usize| v@.contains(y) <==> (old(v)@.contains(y) || y == x) by {
                    if v@.contains(y) {
                        let j = choose|j: int| 0 <= j < v@.len() && v@[j] == y;
                        if j < pos {
                            assert(old(v)@[j] == y);
                        } else if j > pos {
                            assert(old(v)@[j - 1] == y);
                        }
                    }
                    if old(v)@.contains(y) {
                        let j = choose|j: int| 0 <= j < old(v)@.len() && old(v)@[j] == y;
                        if j < pos {
                            assert(v@[j] == y);
                        } else {
                            assert(v@[j + 1] == y);
                        }
                    }
                    if y == x {
                        assert(v@[pos as int] == y);
                    }
                }
            }
        },
    }
}

/// Removes `x` from the increasing `v`, if it is there.
fn remove_sorted(v: &mut Vec<usize>, x: usize)
    requires
        sorted_ids(old(v)@),
    ensures
        sorted_ids(final(v)@),
        forall|y: usize| final(v)@.contains(y) <==> (old(v)@.contains(y) && y != x),
{
    match search_sorted(v, x) {
        Ok(pos) => {
            v.remove(pos);
            proof {
                assert forall|y: usize| v@.contains(y) <==> (old(v)@.contains(y) && y != x) by {
                    if v@.contains(y) {
                        let j = choose|j: int| 0 <= j < v@.len() && v@[j] == y;
                        if j < pos {
                            assert(old(v)@[j] == y);
                        } else {
                            assert(old(v)@[j + 1] == y);
                        }
                    }
                    if old(v)@.contains(y) && y != x {
                        let j = choose|j: int| 0 <= j < old(v)@.len() && old(v)@[j] == y;
                        if j < pos {
                            assert(v@[j] == y);
                        } else {
                            assert(j != pos);
                            assert(v@[j - 1] == y);
                        }
                    }
                }
            }
        },
        Err(_) => {},
    }
}

/// The tokens of `text`.
pub fn tokenize(text: &str) -> (r: Vec<String>)
    ensures
        r@.len() == tokens(text@).len(),
        forall|i: int| 0 <= i < r@.len() ==> (#[trigger] r@[i])@ == tokens(text@)[i],
{
    let chars = chars_of(text);
    let ghost s = text@;
    let mut out: Vec<String> = Vec::new();
    let mut cur: Vec<char> = Vec::new();
    let mut i: usize = 0;
    proof {
        assert(s.take(0) =~= Seq::<char>::empty());
    }
    while i < chars.len()
        invariant
            chars@ == s,
            i <= s.len(),
            token_state(s.take(i as int)).1 == cur@,
            out@.len() == token_state(s.take(i as int)).0.len(),
            forall|j: int| 0 <= j < out@.len() ==> (#[trigger] out@[j])@ == token_state(s.take(i as int)).0[j],
        decreases s.len() - i,
    {
        let c = chars[i];
        proof {
            assert(s.take(i + 1).drop_last() =~= s.take(i as int));
            assert(s.take(i + 1).last() == c);
        }
        if is_whitespace(c) {
            let w = lowercase_of(cur.as_slice());
            if !w.as_str().is_empty() {
                out.push(w);
            }
            cur = Vec::new();
        } else if is_alphanumeric(c) {
            cur.push(c);
        }
        i = i + 1;
    }
    let w = lowercase_of(cur.as_slice());
    if !w.as_str().is_empty() {
        out.push(w);
    }
    proof {
        assert(s.take(s.len() as int) =~= s);
    }
    out
}

/// A copy of the ids `v`.
fn copy_ids(v: &Vec<usize>) -> (r: Vec<usize>)
    ensures
        r@ == v@,
{
    let mut r: Vec<usize> = Vec::new();
    let mut i: usize = 0;
    while i < v.len()
        invariant
            i <= v@.len(),
            r@ == v@.take(i as int),
        decreases v@.len() - i,
    {
        r.push(v[i]);
        i = i + 1;
        proof {
            assert(r@ =~= v@.take(i as int));
        }
    }
    proof {
        assert(v@.take(v@.len() as int) =~= v@);
    }
    r
}

/// The ids of the increasing `a` that `b` holds, in order.
fn intersect_sorted(a: &Vec<usize>, b: &Vec<usize>) -> (r: Vec<usize>)
    requires
        sorted_ids(a@),
        sorted_ids(b@),
    ensures
        sorted_ids(r@),
        forall|x: usize| r@.contains(x) <==> (a@.contains(x) && b@.contains(x)),
{
    let mut r: Vec<usize> = Vec::new();
    let mut i: usize = 0;
    while i < a.len()
        invariant
            sorted_ids(a@),
            sorted_ids(b@),
            i <= a@.len(),
            sorted_ids(r@),
            forall|k: int, m: int| 0 <= k < r@.len() && i <= m < a@.len() ==> r@[k] < a@[m],
            forall|x: usize| r@.contains(x) <==> (a@.take(i as int).contains(x) && b@.contains(x)),
        decreases a@.len() - i,
    {
        let x = a[i];
        let ghost prev = r@;
        let ghost t0 = a@.take(i as int);
        let ghost t1 = a@.take(i + 1);
        proof {
            assert(t1 =~= t0.push(x));
            assert forall|y: usize| t1.contains(y) <==> (t0.contains(y) || y == x) by {
                if t1.contains(y) && y != x {
                    let m = choose|m: int| 0 <= m < t1.len() && #[trigger] t1[m] == y;
                    assert(t0[m] == y);
                }
                if t0.contains(y) {
                    let m = choose|m: int| 0 <= m < t0.len() && #[trigger] t0[m] == y;
                    assert(t1[m] == y);
                }
                if y == x {
                    assert(t1[i as int] == y);
                }
            }
        }
        match search_sorted(b, x) {
            Ok(_) => {
                r.push(x);
                proof {
                    assert forall|y: usize| #[trigger] r@.contains(y) <==> (t1.contains(y) && b@.contains(y)) by {
                        assert(prev.contains(y) <==> (t0.contains(y) && b@.contains(y)));
                        if r@.contains(y) && y != x {
                            let m = choose|m: int| 0 <= m < r@.len() && r@[m] == y;
                            assert(prev[m] == y);
                        }
                        if prev.contains(y) {
                            let m = choose|m: int| 0 <= m < prev.len() && prev[m] == y;
                            assert(r@[m] == y);
                        }
                        if y == x {
                            assert(r@[r@.len() - 1] == y);
                        }
                    }
                }
            },
            Err(_) => {
                proof {
                    assert forall|y: usize| #[trigger] r@.contains(y) <==> (t1.contains(y) && b@.contains(y)) by {
                        assert(prev.contains(y) <==> (t0.contains(y) && b@.contains(y)));
                    }
                }
            },
        }
        i = i + 1;
    }
    proof {
        assert(a@.take(a@.len() as int) =~= a@);
    }
    r
}

/// An inverted index: each token maps to the increasing ids of the
/// documents that hold it.
pub struct InvertedIndex {
    index: AHashMap<String, Vec<usize>>,
}

impl InvertedIndex {
    /// The postings of each token.
    pub closed spec fn view(&self) -> Map<Seq<char>, Seq<usize>> {
        self.index@.map_values(|v: Vec<usize>| v@)
    }

    /// The map is well formed and every posting list is strictly
    /// increasing.
    pub closed spec fn wf(&self) -> bool {
        &&& self.index.wf()
        &&& forall|t: Seq<char>| #[trigger] self.index@.contains_key(t) ==> sorted_ids(self.index@[t]@)
    }

    /// An empty index.
    pub fn new() -> (ix: Self)
        ensures
            ix.wf(),
            ix.view() == Map::<Seq<char>, Seq<usize>>::empty(),
    {
        let ix = InvertedIndex { index: AHashMap::new() };
        proof {
            assert(ix.view() =~= Map::<Seq<char>, Seq<usize>>::empty());
        }
        ix
    }

    /// `t`'s postings hold `y` before any change.
    pub open spec fn has(&self, t: Seq<char>, y: usize) -> bool {
        self.view().contains_key(t) && self.view()[t].contains(y)
    }

    /// Indexes the document `entity_id` under each token of `text`.
    pub fn insert_document(&mut self, entity_id: usize, text: &str)
        requires
            old(self).wf(),
            old(self).view().len() + tokens(text@).len() < MAX_ENTRIES,
        ensures
            final(self).wf(),
            forall|t: Seq<char>| #[trigger] final(self).view().contains_key(t) <==> (old(self).view().contains_key(t)
                || tokens(text@).contains(t)),
            forall|t: Seq<char>, y: usize|
                tokens(text@).contains(t) ==> (#[trigger] final(self).has(t, y) <==> (old(self).has(t, y) || y == entity_id)),
            forall|t: Seq<char>|
                !tokens(text@).contains(t) && #[trigger] old(self).view().contains_key(t) ==> final(self).view()[t]
                    == old(self).view()[t],
    {
        let toks = tokenize(text);
        let ghost ts = tokens(text@);
        let ghost pre = *self;
        proof {
            self.index.lemma_finite();
            assert(self.view().dom() =~= self.index@.dom());
            assert(ts.take(0) =~= Seq::<Seq<char>>::empty());
        }
        let mut i: usize = 0;
        while i < toks.len()
            invariant
                toks@.len() == ts.len(),
                forall|j: int| 0 <= j < toks@.len() ==> (#[trigger] toks@[j])@ == ts[j],
                i <= ts.len(),
                self.wf(),
                pre.view().len() + ts.len() < MAX_ENTRIES,
                self.view().dom().finite(),
                self.view().len() <= pre.view().len() + i,
                forall|t: Seq<char>| #[trigger] self.view().contains_key(t) <==> (pre.view().contains_key(t) || ts.take(
                    i as int,
                ).contains(t)),
                forall|t: Seq<char>, y: usize|
                    ts.take(i as int).contains(t) ==> (#[trigger] self.has(t, y) <==> (pre.has(t, y) || y == entity_id)),
                forall|t: Seq<char>|
                    !ts.take(i as int).contains(t) && #[trigger] pre.view().contains_key(t) ==> self.view()[t] == pre.view()[t],
            decreases ts.len() - i,
        {
            let token = &toks[i];
            let ghost tk = token@;
            let ghost mid0 = *self;
            proof {
                assert(ts.take(i + 1) =~= ts.take(i as int).push(tk));
                self.index.lemma_finite();
                assert(self.index@.dom() =~= self.view().dom());
            }
            if !self.index.contains_key(token) {
                self.index.insert(token.clone(), Vec::new());
                proof {
                    assert(self.index@.dom() =~= mid0.index@.dom().insert(tk));
                }
            }
            let ghost mid = *self;
            proof {
                assert forall|t: Seq<char>| t != tk implies (#[trigger] mid.index@.contains_key(t)) == mid0.index@.contains_key(t)
                    && (mid0.index@.contains_key(t) ==> mid.index@[t] == mid0.index@[t]) by {
                }
                assert(mid.index@.contains_key(tk));
                assert(!mid0.index@.contains_key(tk) ==> mid.index@[tk]@ == Seq::<usize>::empty());
                assert(mid0.index@.contains_key(tk) ==> mid.index@[tk] == mid0.index@[tk]);
            }
            let ghost mid_p = self.index@[tk]@;
            match self.index.get_mut(token) {
                Some(postings) => {
                    insert_sorted(postings, entity_id);
                },
                None => {},
            }
            proof {
                assert(self.index@.contains_key(tk));
                assert forall|y: usize| #[trigger] self.index@[tk]@.contains(y) <==> (mid_p.contains(y) || y == entity_id) by {
                }
                assert forall|t: Seq<char>| t != tk implies (#[trigger] self.index@.contains_key(t)) == mid0.index@.contains_key(t)
                    && (mid0.index@.contains_key(t) ==> self.index@[t] == mid0.index@[t]) by {
                    assert(mid.index@.contains_key(t) == mid0.index@.contains_key(t));
                }
            }
            proof {
                assert(self.index@.dom() =~= mid.index@.dom());
                assert(self.view().dom() =~= mid0.view().dom().insert(tk));
                assert forall|t: Seq<char>| #[trigger] self.index@.contains_key(t) implies sorted_ids(self.index@[t]@) by {
                    if t != tk {
                        assert(mid.index@[t] == mid0.index@[t]);
                    }
                }
                assert forall|t: Seq<char>, y: usize| ts.take(i + 1).contains(t) && t != tk implies (#[trigger] self.has(t, y) <==> (
                pre.has(t, y) || y == entity_id)) by {
                    assert(ts.take(i as int).contains(t)) by {
                        let j = choose|j: int| 0 <= j < ts.take(i + 1).len() && #[trigger] ts.take(i + 1)[j] == t;
                        assert(j < i);
                        assert(ts.take(i as int)[j] == t);
                    }
                    assert(self.index@.contains_key(t) == mid0.index@.contains_key(t));
                    assert(self.has(t, y) == mid0.has(t, y));
                    assert(mid0.has(t, y) <==> (pre.has(t, y) || y == entity_id));
                }
                assert forall|y: usize| #[trigger] self.has(tk, y) <==> (pre.has(tk, y) || y == entity_id) by {
                    assert(self.view()[tk] == self.index@[tk]@);
                    assert(self.index@[tk]@.contains(y) <==> (mid_p.contains(y) || y == entity_id));
                    if mid0.view().contains_key(tk) {
                        assert(mid_p == mid0.view()[tk]);
                        if !ts.take(i as int).contains(tk) {
                            assert(pre.view().contains_key(tk));
                            assert(mid0.view()[tk] == pre.view()[tk]);
                        } else {
                            assert(mid0.has(tk, y) <==> (pre.has(tk, y) || y == entity_id));
                        }
                    } else {
                        assert(mid_p =~= Seq::<usize>::empty());
                        assert(!pre.view().contains_key(tk));
                    }
                }
                assert forall|t: Seq<char>, y: usize| ts.take(i + 1).contains(t) implies (#[trigger] self.has(t, y) <==> (
                pre.has(t, y) || y == entity_id)) by {
                    if t == tk {
                        assert(self.has(tk, y) <==> (pre.has(tk, y) || y == entity_id));
                    }
                }
                assert forall|t: Seq<char>| !ts.take(i + 1).contains(t) && #[trigger] pre.view().contains_key(t) implies self.view()[t]
                    == pre.view()[t] by {
                    assert(!ts.take(i as int).contains(t)) by {
                        if ts.take(i as int).contains(t) {
                            let j = choose|j: int| 0 <= j < ts.take(i as int).len() && #[trigger] ts.take(i as int)[j] == t;
                            assert(ts.take(i + 1)[j] == t);
                        }
                    }
                    assert(t != tk) by {
                        assert(ts.take(i + 1)[i as int] == tk);
                    }
                }
                assert forall|t: Seq<char>| #[trigger] self.view().contains_key(t) <==> (pre.view().contains_key(t) || ts.take(
                    i + 1,
                ).contains(t)) by {
                    if t == tk {
                        assert(ts.take(i + 1)[i as int] == tk);
                    } else if ts.take(i + 1).contains(t) {
                        let j = choose|j: int| 0 <= j < ts.take(i + 1).len() && #[trigger] ts.take(i + 1)[j] == t;
                        assert(ts.take(i as int)[j] == t);
                    } else if ts.take(i as int).contains(t) {
                        let j = choose|j: int| 0 <= j < ts.take(i as int).len() && #[trigger] ts.take(i as int)[j] == t;
                        assert(ts.take(i + 1)[j] == t);
                    }
                }
                vstd::set_lib::lemma_len_subset(mid0.view().dom(), mid0.view().dom());
            }
            i = i + 1;
        }
        proof {
            assert(ts.take(ts.len() as int) =~= ts);
        }
    }

    /// Removes the document `entity_id` from the postings of each token of
    /// `text`; tokens keep their posting lists, even when emptied.
    pub fn remove_document(&mut self, entity_id: usize, text: &str)
        requires
            old(self).wf(),
        ensures
            final(self).wf(),
            forall|t: Seq<char>| #[trigger] final(self).view().contains_key(t) <==> old(self).view().contains_key(t),
            forall|t: Seq<char>, y: usize|
                tokens(text@).contains(t) ==> (#[trigger] final(self).has(t, y) <==> (old(self).has(t, y) && y != entity_id)),
            forall|t: Seq<char>|
                !tokens(text@).contains(t) && #[trigger] old(self).view().contains_key(t) ==> final(self).view()[t]
                    == old(self).view()[t],
    {
        let toks = tokenize(text);
        let ghost ts = tokens(text@);
        let ghost pre = *self;
        proof {
            assert(ts.take(0) =~= Seq::<Seq<char>>::empty());
        }
        let mut i: usize = 0;
        while i < toks.len()
            invariant
                toks@.len() == ts.len(),
                forall|j: int| 0 <= j < toks@.len() ==> (#[trigger] toks@[j])@ == ts[j],
                i <= ts.len(),
                self.wf(),
                forall|t: Seq<char>| #[trigger] self.view().contains_key(t) <==> pre.view().contains_key(t),
                forall|t: Seq<char>, y: usize|
                    ts.take(i as int).contains(t) ==> (#[trigger] self.has(t, y) <==> (pre.has(t, y) && y != entity_id)),
                forall|t: Seq<char>|
                    !ts.take(i as int).contains(t) && #[trigger] pre.view().contains_key(t) ==> self.view()[t] == pre.view()[t],
            decreases ts.len() - i,
        {
            let token = &toks[i];
            let ghost tk = token@;
            let ghost mid0 = *self;
            proof {
                assert(ts.take(i + 1) =~= ts.take(i as int).push(tk));
            }
            let ghost mid_p = self.index@[tk]@;
            match self.index.get_mut(token) {
                Some(postings) => {
                    remove_sorted(postings, entity_id);
                },
                None => {},
            }
            proof {
                assert forall|t: Seq<char>| t != tk implies (#[trigger] self.index@.contains_key(t)) == mid0.index@.contains_key(t)
                    && (mid0.index@.contains_key(t) ==> self.index@[t] == mid0.index@[t]) by {
                }
                assert(self.index@.contains_key(tk) == mid0.index@.contains_key(tk));
                assert forall|t: Seq<char>| #[trigger] self.index@.contains_key(t) implies sorted_ids(self.index@[t]@) by {
                    if t != tk {
                        assert(self.index@[t] == mid0.index@[t]);
                    }
                }
                assert forall|t: Seq<char>, y: usize| ts.take(i + 1).contains(t) && t != tk implies (#[trigger] self.has(t, y) <==> (
                pre.has(t, y) && y != entity_id)) by {
                    assert(ts.take(i as int).contains(t)) by {
                        let j = choose|j: int| 0 <= j < ts.take(i + 1).len() && #[trigger] ts.take(i + 1)[j] == t;
                        assert(j < i);
                        assert(ts.take(i as int)[j] == t);
                    }
                    assert(self.has(t, y) == mid0.has(t, y));
                    assert(mid0.has(t, y) <==> (pre.has(t, y) && y != entity_id));
                }
                assert forall|y: usize| #[trigger] self.has(tk, y) <==> (pre.has(tk, y) && y != entity_id) by {
                    if mid0.view().contains_key(tk) {
                        assert(self.view()[tk] == self.index@[tk]@);
                        assert(self.index@[tk]@.contains(y) <==> (mid_p.contains(y) && y != entity_id));
                        assert(mid_p == mid0.view()[tk]);
                        if !ts.take(i as int).contains(tk) {
                            assert(mid0.view()[tk] == pre.view()[tk]);
                        } else {
                            assert(mid0.has(tk, y) <==> (pre.has(tk, y) && y != entity_id));
                        }
                    } else {
                        assert(!pre.view().contains_key(tk));
                    }
                }
                assert forall|t: Seq<char>, y: usize| ts.take(i + 1).contains(t) implies (#[trigger] self.has(t, y) <==> (
                pre.has(t, y) && y != entity_id)) by {
                    if t == tk {
                        assert(self.has(tk, y) <==> (pre.has(tk, y) && y != entity_id));
                    }
                }
                assert forall|t: Seq<char>| !ts.take(i + 1).contains(t) && #[trigger] pre.view().contains_key(t) implies self.view()[t]
                    == pre.view()[t] by {
                    assert(!ts.take(i as int).contains(t)) by {
                        if ts.take(i as int).contains(t) {
                            let j = choose|j: int| 0 <= j < ts.take(i as int).len() && #[trigger] ts.take(i as int)[j] == t;
                            assert(ts.take(i + 1)[j] == t);
                        }
                    }
                    assert(t != tk) by {
                        assert(ts.take(i + 1)[i as int] == tk);
                    }
                    assert(mid0.view().contains_key(t));
                    assert(self.index@[t] == mid0.index@[t]);
                    assert(mid0.view()[t] == pre.view()[t]);
                }
                assert forall|t: Seq<char>| #[trigger] self.view().contains_key(t) <==> pre.view().contains_key(t) by {
                    assert(mid0.view().contains_key(t) <==> pre.view().contains_key(t));
                }
            }
            i = i + 1;
        }
        proof {
            assert(ts.take(ts.len() as int) =~= ts);
        }
    }

    /// The ids that some token of `query` is indexed under, in increasing
    /// order.
    pub fn search_or(&self, query: &str) -> (r: Vec<usize>)
        requires
            self.wf(),
        ensures
            sorted_ids(r@),
            forall|x: usize| r@.contains(x) <==> exists|t: Seq<char>| tokens(query@).contains(t) && #[trigger] self.has(t, x),
    {
        let toks = tokenize(query);
        let ghost ts = tokens(query@);
        let mut result: Vec<usize> = Vec::new();
        let mut i: usize = 0;
        while i < toks.len()
            invariant
                toks@.len() == ts.len(),
                forall|j: int| 0 <= j < toks@.len() ==> (#[trigger] toks@[j])@ == ts[j],
                i <= ts.len(),
                self.wf(),
                sorted_ids(result@),
                forall|x: usize| result@.contains(x) <==> exists|k: int| 0 <= k < i && #[trigger] self.has(ts[k], x),
            decreases ts.len() - i,
        {
            let ghost tk = toks@[i as int]@;
            match self.index.get(&toks[i]) {
                Some(postings) => {
                    let ghost before = result@;
                    let mut j: usize = 0;
                    while j < postings.len()
                        invariant
                            postings@ == self.index@[tk]@,
                            j <= postings@.len(),
                            sorted_ids(result@),
                            forall|x: usize| result@.contains(x) <==> (before.contains(x) || postings@.take(j as int).contains(x)),
                        decreases postings@.len() - j,
                    {
                        let ghost prev = result@;
                        let ghost pj = postings@[j as int];
                        insert_sorted(&mut result, postings[j]);
                        proof {
                            let t0 = postings@.take(j as int);
                            let t1 = postings@.take(j + 1);
                            assert(t1 =~= t0.push(pj));
                            assert forall|x: usize| t1.contains(x) <==> (t0.contains(x) || x == pj) by {
                                if t1.contains(x) && x != pj {
                                    let m = choose|m: int| 0 <= m < t1.len() && #[trigger] t1[m] == x;
                                    assert(t0[m] == x);
                                }
                                if t0.contains(x) {
                                    let m = choose|m: int| 0 <= m < t0.len() && #[trigger] t0[m] == x;
                                    assert(t1[m] == x);
                                }
                                if x == pj {
                                    assert(t1[j as int] == x);
                                }
                            }
                            assert forall|x: usize| #[trigger] result@.contains(x) <==> (before.contains(x) || t1.contains(x)) by {
                                assert(prev.contains(x) <==> (before.contains(x) || t0.contains(x)));
                                assert(result@.contains(x) <==> (prev.contains(x) || x == pj));
                                assert(t1.contains(x) <==> (t0.contains(x) || x == pj));
                            }
                        }
                        j = j + 1;
                    }
                    proof {
                        assert(postings@.take(postings@.len() as int) =~= postings@);
                        assert forall|x: usize| result@.contains(x) <==> exists|k: int| 0 <= k < i + 1 && #[trigger] self.has(ts[k], x) by {
                            assert(result@.contains(x) <==> (before.contains(x) || postings@.take(postings@.len() as int).contains(x)));
                            assert(before.contains(x) <==> exists|k: int| 0 <= k < i && #[trigger] self.has(ts[k], x));
                            assert(self.view()[tk] == postings@);
                            assert(postings@.contains(x) <==> self.has(ts[i as int], x));
                            if result@.contains(x) && !before.contains(x) {
                                assert(self.has(ts[i as int], x));
                            }
                            if exists|k: int| 0 <= k < i + 1 && #[trigger] self.has(ts[k], x) {
                                let k = choose|k: int| 0 <= k < i + 1 && #[trigger] self.has(ts[k], x);
                                if k < i {
                                    assert(before.contains(x));
                                } else {
                                    assert(postings@.contains(x));
                                }
                            }
                        }
                    }
                },
                None => {
                    proof {
                        assert forall|x: usize| result@.contains(x) <==> exists|k: int| 0 <= k < i + 1 && #[trigger] self.has(ts[k], x) by {
                            if exists|k: int| 0 <= k < i + 1 && #[trigger] self.has(ts[k], x) {
                                let k = choose|k: int| 0 <= k < i + 1 && #[trigger] self.has(ts[k], x);
                                assert(k != i);
                            }
                        }
                    }
                },
            }
            i = i + 1;
        }
        proof {
            assert forall|x: usize| result@.contains(x) <==> exists|t: Seq<char>| ts.contains(t) && #[trigger] self.has(t, x) by {
                if result@.contains(x) {
                    let k = choose|k: int| 0 <= k < ts.len() && #[trigger] self.has(ts[k], x);
                    assert(ts.contains(ts[k]));
                }
                if exists|t: Seq<char>| ts.contains(t) && #[trigger] self.has(t, x) {
                    let t = choose|t: Seq<char>| ts.contains(t) && #[trigger] self.has(t, x);
                    let k = choose|k: int| 0 <= k < ts.len() && ts[k] == t;
                    assert(self.has(ts[k], x));
                }
            }
        }
        result
    }

    /// The ids indexed under every token of `query`, in increasing order; a
    /// query with no tokens, or with a token the index does not know, finds
    /// nothing.
    pub fn search_and(&self, query: &str) -> (r: Vec<usize>)
        requires
            self.wf(),
        ensures
            sorted_ids(r@),
            forall|x: usize|
                r@.contains(x) <==> (tokens(query@).len() > 0 && forall|t: Seq<char>|
                    tokens(query@).contains(t) ==> #[trigger] self.has(t, x)),
    {
        let toks = tokenize(query);
        let ghost ts = tokens(query@);
        let mut result: Vec<usize> = Vec::new();
        let mut i: usize = 0;
        while i < toks.len()
            invariant
                ts == tokens(query@),
                toks@.len() == ts.len(),
                forall|j: int| 0 <= j < toks@.len() ==> (#[trigger] toks@[j])@ == ts[j],
                i <= ts.len(),
                self.wf(),
                sorted_ids(result@),
                forall|x: usize| result@.contains(x) <==> (i > 0 && forall|k: int|
                    0 <= k < i ==> #[trigger] self.has(ts[k], x)),
            decreases ts.len() - i,
        {
            let ghost tk = toks@[i as int]@;
            match self.index.get(&toks[i]) {
                Some(postings) => {
                    let ghost before = result@;
                    if i == 0 {
                        result = copy_ids(postings);
                    } else {
                        result = intersect_sorted(&result, postings);
                    }
                    proof {
                        assert(self.view().contains_key(ts[i as int]));
                        assert(self.view()[tk] == postings@);
                        assert forall|x: usize| result@.contains(x) <==> (i + 1 > 0 && forall|k: int|
                            0 <= k < i + 1 ==> #[trigger] self.has(ts[k], x)) by {
                            if forall|k: int| 0 <= k < i + 1 ==> #[trigger] self.has(ts[k], x) {
                                assert(self.has(ts[i as int], x));
                                assert forall|k: int| 0 <= k < i implies #[trigger] self.has(ts[k], x) by {
                                    assert(0 <= k < i + 1);
                                }
                            }
                            if result@.contains(x) && i > 0 {
                                assert(before.contains(x));
                            }
                        }
                    }
                },
                None => {
                    proof {
                        assert(!self.view().contains_key(ts[i as int]));
                        assert(ts.contains(ts[i as int]));
                        assert(forall|x: usize| !#[trigger] self.has(ts[i as int], x));
                    }
                    let empty: Vec<usize> = Vec::new();
                    proof {
                        assert forall|x: usize| empty@.contains(x) <==> (ts.len() > 0 && forall|t: Seq<char>|
                            ts.contains(t) ==> #[trigger] self.has(t, x)) by {
                            assert(!empty@.contains(x));
                            assert(!self.has(ts[i as int], x));
                        }
                    }
                    return empty;
                },
            }
            i = i + 1;
        }
        proof {
            assert forall|x: usize| result@.contains(x) <==> (ts.len() > 0 && forall|t: Seq<char>|
                ts.contains(t) ==> #[trigger] self.has(t, x)) by {
                if result@.contains(x) {
                    assert forall|t: Seq<char>| ts.contains(t) implies #[trigger] self.has(t, x) by {
                        let k = choose|k: int| 0 <= k < ts.len() && ts[k] == t;
                        assert(self.has(ts[k], x));
                    }
                }
                if ts.len() > 0 && forall|t: Seq<char>| ts.contains(t) ==> #[trigger] self.has(t, x) {
                    assert forall|k: int| 0 <= k < ts.len() implies #[trigger] self.has(ts[k], x) by {
                        assert(ts.contains(ts[k]));
                    }
                }
            }
        }
        result
    }
}

} // verus!
