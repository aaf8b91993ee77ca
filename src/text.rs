//! Decoded character strings and whitespace-delimited phrases.
use vstd::prelude::*;

verus! {

/// The pieces of `s` between single space characters, empty pieces included.
pub open spec fn pieces(s: Seq<char>) -> Seq<Seq<char>>
    decreases s.len(),
{
    if s.len() == 0 {
        seq![Seq::empty()]
    } else {
        let p = pieces(s.drop_last());
        if s.last() == ' ' {
            p.push(Seq::empty())
        } else {
            p.update(p.len() - 1, p.last().push(s.last()))
        }
    }
}

/// The non-empty members of `p`, in order.
pub open spec fn non_empty(p: Seq<Seq<char>>) -> Seq<Seq<char>> {
    p.filter(|t: Seq<char>| t.len() > 0)
}

/// The tokens of `s`: the non-empty pieces between spaces.
pub open spec fn tokens(s: Seq<char>) -> Seq<Seq<char>> {
    non_empty(pieces(s))
}

/// Total number of characters in all of `t`.
pub open spec fn total_len(t: Seq<Seq<char>>) -> int
    decreases t.len(),
{
    if t.len() == 0 {
        0
    } else {
        total_len(t.drop_last()) + t.last().len()
    }
}

/// Length of the tokens joined with one separator between neighbours.
pub open spec fn joined_len_of(t: Seq<Seq<char>>) -> int {
    if t.len() == 0 {
        0
    } else {
        total_len(t) + t.len() - 1
    }
}

/// The tokens joined with a single space between neighbours.
pub open spec fn render(t: Seq<Seq<char>>) -> Seq<char>
    decreases t.len(),
{
    if t.len() == 0 {
        Seq::empty()
    } else if t.len() == 1 {
        t[0]
    } else {
        render(t.drop_last()) + seq![' '] + t.last()
    }
}

/// String whose characters are stored one per slot.
#[derive(Clone, Debug, PartialEq, Eq)]
pub struct CharString(pub Vec<char>);

impl View for CharString {
    type V = Seq<char>;

    open spec fn view(&self) -> Seq<char> {
        self.0@
    }
}

/// Relies on `FromIterator<&char> for String`: the characters in order.
#[verifier::external_body]
pub(crate) fn string_of(chars: &Vec<char>) -> (r: String)
    ensures
        r@ == chars@,
{
    chars.iter().collect()
}

impl CharString {
    /// The characters of `string`, in order.
    pub fn from_str(string: &str) -> (r: CharString)
        ensures
            r@ == string@,
    {
        broadcast use vstd::string::axiom_spec_iter;

        let mut v: Vec<char> = Vec::new();
        for c in it: string.chars()
            invariant
                it.seq() == string@,
                v@ == it.seq().take(it.index() as int),
        {
            v.push(c);
            assert(v@ == it.seq().take(it.index() + 1));
        }
        assert(v@ == string@);
        CharString(v)
    }

    /// The characters as a `String`.
    pub fn to_string(&self) -> (r: String)
        ensures
            r@ == self@,
    {
        string_of(&self.0)
    }
}


/// Set of string tokens representing a complete phrase.
#[derive(Clone, Debug, PartialEq, Eq)]
pub struct Phrase(pub Vec<CharString>);

impl View for Phrase {
    type V = Seq<Seq<char>>;

    open spec fn view(&self) -> Seq<Seq<char>> {
        self.0@.map_values(|c: CharString| c@)
    }
}

proof fn lemma_pieces_non_empty(s: Seq<char>)
    ensures
        pieces(s).len() >= 1,
    decreases s.len(),
{
    if s.len() > 0 {
        lemma_pieces_non_empty(s.drop_last());
    }
}

proof fn lemma_non_empty_push(p: Seq<Seq<char>>, t: Seq<char>)
    ensures
        non_empty(p.push(t)) == if t.len() > 0 {
            non_empty(p).push(t)
        } else {
            non_empty(p)
        },
{
    reveal(Seq::filter);
    assert(p.push(t).drop_last() == p);
}

proof fn lemma_total_len_push(t: Seq<Seq<char>>, x: Seq<char>)
    ensures
        total_len(t.push(x)) == total_len(t) + x.len(),
{
    assert(t.push(x).drop_last() == t);
}


/// A space splits the pieces of what stands around it.
proof fn lemma_pieces_split(a: Seq<char>, b: Seq<char>)
    ensures
        pieces(a + seq![' '] + b) == pieces(a) + pieces(b),
    decreases b.len(),
{
    let x = a + seq![' '];
    if b.len() == 0 {
        assert(x + b =~= x);
        assert(x.drop_last() =~= a);
        assert(pieces(a).push(Seq::empty()) =~= pieces(a) + pieces(b));
    } else {
        lemma_pieces_split(a, b.drop_last());
        lemma_pieces_non_empty(b.drop_last());
        assert((x + b).drop_last() =~= x + b.drop_last());
        let p = pieces(a);
        let q = pieces(b.drop_last());
        if b.last() == ' ' {
            assert((p + q).push(Seq::empty()) =~= p + q.push(Seq::empty()));
        } else {
            let c = b.last();
            assert((p + q).update(p.len() + q.len() - 1, (p + q).last().push(c)) =~= p + q.update(
                q.len() - 1,
                q.last().push(c),
            ));
        }
    }
}

/// Widening a run of spaces leaves the tokens, and so the joined length, unchanged.
pub proof fn lemma_tokens_ignore_space_width(a: Seq<char>, b: Seq<char>)
    ensures
        tokens(a + seq![' '] + b) == tokens(a + seq![' ', ' '] + b),
        joined_len_of(tokens(a + seq![' '] + b)) == joined_len_of(tokens(a + seq![' ', ' '] + b)),
{
    let x = a + seq![' '];
    lemma_pieces_split(a, b);
    lemma_pieces_split(x, b);
    lemma_pieces_split(a, Seq::empty());
    assert(x + seq![' '] + b =~= a + seq![' ', ' '] + b);
    assert(a + seq![' '] + Seq::empty() =~= x);
    assert(pieces(Seq::<char>::empty()) =~= seq![Seq::<char>::empty()]);
    let e = |t: Seq<char>| t.len() > 0;
    Seq::filter_distributes_over_add(pieces(a), pieces(b), e);
    Seq::filter_distributes_over_add(pieces(a) + pieces(Seq::empty()), pieces(b), e);
    Seq::filter_distributes_over_add(pieces(a), pieces(Seq::empty()), e);
    lemma_non_empty_push(Seq::empty(), Seq::empty());
    reveal(Seq::filter);
    assert(non_empty(pieces(Seq::empty())) =~= Seq::<Seq<char>>::empty());
    assert(non_empty(pieces(a)) + Seq::<Seq<char>>::empty() =~= non_empty(pieces(a)));
}

/// Spaces before or after a text leave its tokens, and so its joined length,
/// unchanged.
pub proof fn lemma_tokens_ignore_outer_spaces(s: Seq<char>)
    ensures
        tokens(seq![' '] + s) == tokens(s),
        tokens(s + seq![' ']) == tokens(s),
        joined_len_of(tokens(seq![' '] + s)) == joined_len_of(tokens(s)),
        joined_len_of(tokens(s + seq![' '])) == joined_len_of(tokens(s)),
{
    let e = Seq::<char>::empty();
    let none = Seq::<Seq<char>>::empty();
    lemma_pieces_split(e, s);
    lemma_pieces_split(s, e);
    assert(e + seq![' '] + s =~= seq![' '] + s);
    assert(s + seq![' '] + e =~= s + seq![' ']);
    assert(pieces(e) =~= seq![e]);
    let f = |t: Seq<char>| t.len() > 0;
    Seq::filter_distributes_over_add(pieces(e), pieces(s), f);
    Seq::filter_distributes_over_add(pieces(s), pieces(e), f);
    lemma_non_empty_push(none, e);
    reveal(Seq::filter);
    assert(none.push(e) =~= pieces(e));
    assert(non_empty(none) =~= none);
    assert(non_empty(pieces(e)) =~= none);
    assert(none + non_empty(pieces(s)) =~= non_empty(pieces(s)));
    assert(non_empty(pieces(s)) + none =~= non_empty(pieces(s)));
}

/// Text without tokens has joined length zero; one token has joined length equal
/// to its own length.
pub proof fn lemma_joined_len_small(t: Seq<char>)
    ensures
        joined_len_of(tokens(Seq::empty())) == 0,
        joined_len_of(seq![t]) == t.len(),
{
    let e = Seq::<Seq<char>>::empty();
    lemma_non_empty_push(e, Seq::empty());
    reveal(Seq::filter);
    assert(non_empty(e) =~= e);
    assert(pieces(Seq::<char>::empty()) =~= e.push(Seq::empty()));
    assert(seq![t].drop_last() =~= e);
    assert(total_len(seq![t]) == total_len(e) + t.len());
}

/// The rendered text is as long as the joined length says.
pub proof fn lemma_render_len(t: Seq<Seq<char>>)
    ensures
        render(t).len() == joined_len_of(t),
    decreases t.len(),
{
    if t.len() == 1 {
        assert(t.drop_last() =~= Seq::<Seq<char>>::empty());
        assert(total_len(t) == total_len(t.drop_last()) + t.last().len());
    } else if t.len() > 1 {
        lemma_render_len(t.drop_last());
        assert(total_len(t) == total_len(t.drop_last()) + t.last().len());
    }
}

/// Whether no character of `t` is a space.
pub open spec fn space_free(t: Seq<char>) -> bool {
    forall|j: int| 0 <= j < t.len() ==> t[j] != ' '
}

/// Whether every member of `t` is a non-empty run of non-space characters.
pub open spec fn well_formed_tokens(t: Seq<Seq<char>>) -> bool {
    forall|k: int| 0 <= k < t.len() ==> #[trigger] t[k].len() > 0 && space_free(t[k])
}

proof fn lemma_pieces_space_free(s: Seq<char>)
    ensures
        forall|k: int| 0 <= k < pieces(s).len() ==> space_free(#[trigger] pieces(s)[k]),
    decreases s.len(),
{
    if s.len() > 0 {
        lemma_pieces_space_free(s.drop_last());
        lemma_pieces_non_empty(s.drop_last());
        let p = pieces(s.drop_last());
        if s.last() != ' ' {
            let q = p.last().push(s.last());
            assert(space_free(p[p.len() - 1]));
            assert(space_free(q));
        }
    }
}

proof fn lemma_non_empty_well_formed(p: Seq<Seq<char>>)
    requires
        forall|k: int| 0 <= k < p.len() ==> space_free(#[trigger] p[k]),
    ensures
        well_formed_tokens(non_empty(p)),
    decreases p.len(),
{
    if p.len() > 0 {
        lemma_non_empty_well_formed(p.drop_last());
        assert(p.drop_last().push(p.last()) =~= p);
        lemma_non_empty_push(p.drop_last(), p.last());
        assert(space_free(p[p.len() - 1]));
    } else {
        reveal(Seq::filter);
    }
}

/// The tokens of any text are non-empty and hold no space.
pub proof fn lemma_tokens_well_formed(s: Seq<char>)
    ensures
        well_formed_tokens(tokens(s)),
{
    lemma_pieces_space_free(s);
    lemma_non_empty_well_formed(pieces(s));
}

proof fn lemma_render_spaces(t: Seq<Seq<char>>)
    requires
        well_formed_tokens(t),
    ensures
        forall|i: int|
            0 <= i < render(t).len() && #[trigger] render(t)[i] == ' ' ==> {
                &&& 0 < i < render(t).len() - 1
                &&& render(t)[i - 1] != ' '
                &&& render(t)[i + 1] != ' '
            },
    decreases t.len(),
{
    if t.len() == 1 {
        assert(t[0].len() > 0 && space_free(t[0]));
    } else if t.len() > 1 {
        let d = t.drop_last();
        assert(well_formed_tokens(d)) by {
            assert forall|k: int| 0 <= k < d.len() implies #[trigger] d[k].len() > 0 && space_free(
                d[k],
            ) by {
                assert(d[k] == t[k]);
            }
        }
        lemma_render_spaces(d);
        lemma_render_len(d);
        let r = render(d);
        let x = t.last();
        assert(x.len() > 0 && space_free(x));
        assert(r.len() > 0) by {
            assert(d[0].len() > 0);
            lemma_render_len(d);
            lemma_total_len_nonneg(d);
        }
        assert(r.len() > 0 ==> r[r.len() - 1] != ' ');
        let whole = r + seq![' '] + x;
        assert(render(t) == whole);
        assert forall|i: int| 0 <= i < whole.len() && #[trigger] whole[i] == ' ' implies {
            &&& 0 < i < whole.len() - 1
            &&& whole[i - 1] != ' '
            &&& whole[i + 1] != ' '
        } by {
            if i < r.len() {
                assert(whole[i] == r[i]);
                if i + 1 < r.len() {
                    assert(whole[i + 1] == r[i + 1]);
                }
                assert(whole[i - 1] == r[i - 1]);
            } else if i == r.len() {
                assert(whole[i - 1] == r[r.len() - 1]);
                assert(whole[i + 1] == x[0]);
            } else {
                assert(whole[i] == x[i - r.len() - 1]);
            }
        }
    }
}

proof fn lemma_total_len_nonneg(t: Seq<Seq<char>>)
    ensures
        total_len(t) >= 0,
        t.len() > 0 ==> total_len(t) >= t.last().len(),
    decreases t.len(),
{
    if t.len() > 0 {
        lemma_total_len_nonneg(t.drop_last());
    }
}

/// The rendering of any text's tokens has no space at either end and never two
/// spaces in a row.
pub proof fn lemma_render_single_spaces(s: Seq<char>)
    ensures
        forall|i: int|
            0 <= i < render(tokens(s)).len() && #[trigger] render(tokens(s))[i] == ' ' ==> {
                &&& 0 < i < render(tokens(s)).len() - 1
                &&& render(tokens(s))[i - 1] != ' '
                &&& render(tokens(s))[i + 1] != ' '
            },
{
    lemma_tokens_well_formed(s);
    lemma_render_spaces(tokens(s));
}

proof fn lemma_pieces_total(s: Seq<char>)
    ensures
        total_len(pieces(s)) + pieces(s).len() - 1 == s.len(),
    decreases s.len(),
{
    if s.len() == 0 {
        assert(pieces(s) =~= seq![Seq::<char>::empty()]);
        assert(pieces(s).drop_last() =~= Seq::<Seq<char>>::empty());
        assert(total_len(Seq::<Seq<char>>::empty()) == 0);
        assert(total_len(pieces(s)) == total_len(pieces(s).drop_last()) + pieces(s).last().len());
    } else {
        lemma_pieces_total(s.drop_last());
        lemma_pieces_non_empty(s.drop_last());
        let p = pieces(s.drop_last());
        if s.last() == ' ' {
            lemma_total_len_push(p, Seq::empty());
            assert(pieces(s) == p.push(Seq::empty()));
        } else {
            let x = p.last().push(s.last());
            assert(pieces(s) == p.update(p.len() - 1, x));
            assert(p.drop_last().push(p.last()) =~= p);
            lemma_total_len_push(p.drop_last(), p.last());
            assert(p.update(p.len() - 1, x) =~= p.drop_last().push(x));
            lemma_total_len_push(p.drop_last(), x);
        }
    }
}

proof fn lemma_non_empty_joined(p: Seq<Seq<char>>)
    requires
        p.len() >= 1,
    ensures
        joined_len_of(non_empty(p)) <= total_len(p) + p.len() - 1,
    decreases p.len(),
{
    let d = p.drop_last();
    let x = p.last();
    assert(d.push(x) =~= p);
    lemma_non_empty_push(d, x);
    lemma_total_len_push(d, x);
    lemma_total_len_nonneg(d);
    if d.len() == 0 {
        reveal(Seq::filter);
        assert(non_empty(d) =~= d);
        if x.len() > 0 {
            assert(non_empty(d).push(x).drop_last() =~= Seq::<Seq<char>>::empty());
            lemma_total_len_push(Seq::<Seq<char>>::empty(), x);
        }
    } else {
        lemma_non_empty_joined(d);
        let q = non_empty(d);
        lemma_total_len_push(q, x);
        lemma_total_len_nonneg(q);
    }
}

/// The tokens of a text, joined with single spaces, are no longer than the text.
pub proof fn lemma_joined_len_bound(s: Seq<char>)
    ensures
        joined_len_of(tokens(s)) <= s.len(),
{
    lemma_pieces_total(s);
    lemma_pieces_non_empty(s);
    lemma_non_empty_joined(pieces(s));
}

impl Phrase {
    /// Length of the strings joined on a single character.
    pub fn joined_len(&self) -> (r: usize)
        requires
            joined_len_of(self@) <= usize::MAX,
        ensures
            r == joined_len_of(self@),
    {
        if self.0.len() == 0 {
            return 0;
        }
        let mut total: usize = 0;
        let mut i: usize = 0;
        while i < self.0.len()
            invariant
                0 <= i <= self.0.len(),
                self.0.len() > 0,
                total == total_len(self@.take(i as int)),
                joined_len_of(self@) <= usize::MAX,
            decreases self.0.len() - i,
        {
            proof {
                assert(self@.take(i + 1) == self@.take(i as int).push(self@[i as int]));
                lemma_total_len_push(self@.take(i as int), self@[i as int]);
                self.lemma_total_len_prefix(i as int + 1);
            }
            total = total + self.0[i].0.len();
            i = i + 1;
        }
        assert(self@.take(i as int) == self@);
        total + (self.0.len() - 1)
    }

    proof fn lemma_total_len_prefix(&self, k: int)
        requires
            0 <= k <= self@.len(),
        ensures
            total_len(self@.take(k)) <= total_len(self@),
        decreases self@.len() - k,
    {
        if k < self@.len() {
            self.lemma_total_len_prefix(k + 1);
            assert(self@.take(k + 1) == self@.take(k).push(self@[k]));
            lemma_total_len_push(self@.take(k), self@[k]);
        } else {
            assert(self@.take(k) == self@);
        }
    }

    /// Whether the joined length is at most `limit`.
    pub fn fits_within(&self, limit: usize) -> (r: bool)
        ensures
            r == (joined_len_of(self@) <= limit),
    {
        let n = self.0.len();
        if n == 0 {
            return true;
        }
        proof {
            assert(self@.take(0) =~= Seq::<Seq<char>>::empty());
            self.lemma_total_len_prefix(0);
        }
        if n - 1 > limit {
            return false;
        }
        let mut total: usize = n - 1;
        let mut i: usize = 0;
        while i < n
            invariant
                0 <= i <= n,
                n == self.0.len(),
                n > 0,
                total == total_len(self@.take(i as int)) + n - 1,
                total <= limit,
            decreases n - i,
        {
            proof {
                assert(self@.take(i + 1) == self@.take(i as int).push(self@[i as int]));
                lemma_total_len_push(self@.take(i as int), self@[i as int]);
                self.lemma_total_len_prefix(i as int + 1);
            }
            let len = self.0[i].0.len();
            if len > limit - total {
                return false;
            }
            total = total + len;
            i = i + 1;
        }
        assert(self@.take(i as int) == self@);
        true
    }

    /// The tokens of `string`, split on spaces; runs of spaces count as one.
    pub fn from_str(string: &str) -> (r: Phrase)
        ensures
            r@ == tokens(string@),
            joined_len_of(r@) <= string@.len(),
    {
        let chars = CharString::from_str(string);
        Phrase::from_chars(&chars)
    }

    /// The tokens of `chars`, split on spaces.
    pub fn from_chars(chars: &CharString) -> (r: Phrase)
        ensures
            r@ == tokens(chars@),
            joined_len_of(r@) <= chars@.len(),
    {
        proof {
            lemma_joined_len_bound(chars@);
        }
        let s = Ghost(chars@);
        let mut done: Vec<CharString> = Vec::new();
        let mut cur: Vec<char> = Vec::new();
        let mut i: usize = 0;
        while i < chars.0.len()
            invariant
                0 <= i <= chars.0.len(),
                chars@ == s@,
                done@.map_values(|c: CharString| c@) == non_empty(
                    pieces(s@.take(i as int)).drop_last(),
                ),
                cur@ == pieces(s@.take(i as int)).last(),
            decreases chars.0.len() - i,
        {
            let c = chars.0[i];
            proof {
                lemma_pieces_non_empty(s@.take(i as int));
                assert(s@.take(i + 1).drop_last() == s@.take(i as int));
            }
            let ghost p = pieces(s@.take(i as int));
            if c == ' ' {
                proof {
                    assert(p.push(Seq::empty()).drop_last() == p);
                    assert(p.drop_last().push(p.last()) == p);
                    lemma_non_empty_push(p.drop_last(), p.last());
                }
                if cur.len() > 0 {
                    done.push(CharString(cur));
                    assert(done@.map_values(|c: CharString| c@) == non_empty(p));
                }
                cur = Vec::new();
            } else {
                cur.push(c);
                proof {
                    let q = p.update(p.len() - 1, p.last().push(c));
                    assert(q.drop_last() == p.drop_last());
                }
            }
            i = i + 1;
        }
        proof {
            let p = pieces(s@);
            assert(s@.take(i as int) =~= s@);
            lemma_pieces_non_empty(s@);
            assert(p.drop_last().push(p.last()) == p);
            lemma_non_empty_push(p.drop_last(), p.last());
        }
        if cur.len() > 0 {
            done.push(CharString(cur));
        }
        assert(done@.map_values(|c: CharString| c@) == tokens(s@));
        Phrase(done)
    }

    /// The tokens joined with single spaces.
    pub fn to_string(&self) -> (r: String)
        ensures
            r@ == render(self@),
    {
        let out = self.rendered();
        string_of(&out)
    }

    /// The characters of the tokens joined with single spaces.
    pub fn rendered(&self) -> (r: Vec<char>)
        ensures
            r@ == render(self@),
    {
        let mut out: Vec<char> = Vec::new();
        let mut i: usize = 0;
        while i < self.0.len()
            invariant
                0 <= i <= self.0.len(),
                out@ == render(self@.take(i as int)),
            decreases self.0.len() - i,
        {
            proof {
                assert(self@.take(i + 1).drop_last() == self@.take(i as int));
            }
            if i > 0 {
                out.push(' ');
            }
            let mut j: usize = 0;
            let ghost before = out@;
            while j < self.0[i].0.len()
                invariant
                    0 <= j <= self.0[i as int].0.len(),
                    i < self.0.len(),
                    out@ == before + self@[i as int].take(j as int),
                decreases self.0[i as int].0.len() - j,
            {
                out.push(self.0[i].0[j]);
                assert(self@[i as int].take(j + 1) == self@[i as int].take(j as int).push(self@[i as int][j as int]));
                j = j + 1;
            }
            assert(self@[i as int].take(j as int) == self@[i as int]);
            i = i + 1;
        }
        assert(self@.take(i as int) == self@);
        out
    }
}

/// Conversion of text-like values into phrases.
pub trait IntoPhrase {
    /// The characters the value stands for.
    spec fn text(&self) -> Seq<char>;

    /// The phrase made of the value's tokens.
    fn into_char_string(&self) -> (r: Phrase)
        ensures
            r@ == tokens(self.text()),
    ;
}

impl IntoPhrase for String {
    open spec fn text(&self) -> Seq<char> {
        self@
    }

    fn into_char_string(&self) -> (r: Phrase) {
        Phrase::from_str(self.as_str())
    }
}

impl IntoPhrase for CharString {
    open spec fn text(&self) -> Seq<char> {
        self@
    }

    fn into_char_string(&self) -> (r: Phrase) {
        Phrase::from_chars(self)
    }
}

} // verus!
