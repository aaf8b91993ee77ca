//! Finding phrases in a byte stream under several character widths at once.
use crate::decode::{char_of, code_unit, decode_char, lemma_code_unit_suffix, unit_at, ByteOrder};
use crate::text::{joined_len_of, lemma_render_len, render, string_of, Phrase};
use crate::window::SlidingWindow;
use vstd::prelude::*;

verus! {

/// Why a finder could not be built.
#[derive(Clone, Copy, Debug, PartialEq, Eq)]
pub enum ConfigError {
    /// No character width was selected.
    NoWidths,
    /// A width other than 1, 2 or 4 bytes was asked for.
    InvalidWidth,
    /// The context size leaves no room for a window of four bytes per
    /// character (the ring buffer doubles that again).
    ContextTooLarge,
    /// The phrase at `index` is longer than the context size.
    PhraseTooLong { index: usize },
}

/// The character widths, in bytes, to decode the stream with.
#[derive(Clone, Copy, Debug, PartialEq, Eq)]
pub struct WidthSet {
    pub one: bool,
    pub two: bool,
    pub four: bool,
}

impl WidthSet {
    /// Whether width `w` is selected.
    pub open spec fn has(self, w: int) -> bool {
        (w == 1 && self.one) || (w == 2 && self.two) || (w == 4 && self.four)
    }

    pub open spec fn is_none(self) -> bool {
        !self.one && !self.two && !self.four
    }

    /// Reads a bit mask: bit 0 for one byte, bit 1 for two, bit 2 for four.
    pub fn from_bits(bits: u8) -> (r: Result<WidthSet, ConfigError>)
        ensures
            bits > 7 ==> r == Err::<WidthSet, ConfigError>(ConfigError::InvalidWidth),
            bits <= 7 ==> r == Ok::<WidthSet, ConfigError>(
                WidthSet { one: bits % 2 == 1, two: (bits / 2) % 2 == 1, four: bits / 4 == 1 },
            ),
    {
        if bits > 7 {
            Err(ConfigError::InvalidWidth)
        } else {
            Ok(WidthSet { one: bits % 2 == 1, two: (bits / 2) % 2 == 1, four: bits / 4 == 1 })
        }
    }
}

/// Instance of a phrase in a particular file or series of bytes.
#[derive(Clone, Debug, PartialEq, Eq)]
pub struct PhraseInstance {
    /// Index of the phrase.
    pub index: usize,
    /// Offset in the stream of the instance's first byte.
    pub pos: usize,
    /// The decoded text around the instance: up to the context size of
    /// characters before it, the instance, and up to the context size of
    /// characters after it. The text before stops where the window did when
    /// the instance's last byte arrived: the window holds four bytes per
    /// character of context, so at width `w` an instance of `L` characters
    /// leaves room for `4 * context_size / w - L` characters before it.
    pub context: String,
}

impl View for PhraseInstance {
    type V = (int, int, Seq<char>);

    open spec fn view(&self) -> (int, int, Seq<char>) {
        (self.index as int, self.pos as int, self.context@)
    }
}

/// Whether the bytes `s` end with the characters `t` written as code units of
/// width `w`.
pub open spec fn ends_with_text(s: Seq<u8>, t: Seq<char>, w: int, order: ByteOrder) -> bool {
    &&& t.len() > 0
    &&& t.len() * w <= s.len()
    &&& forall|j: int|
        0 <= j < t.len() ==> code_unit(s, s.len() - t.len() * w + j * w, w, order) == (
        #[trigger] t[j]) as u32 as int
}

/// The characters, in width `w`, from up to `ctx` code units before offset
/// `pos` (none before `lo`) through the `len` code units at `pos`.
pub open spec fn context_of(
    s: Seq<u8>,
    lo: int,
    pos: int,
    len: int,
    w: int,
    order: ByteOrder,
    ctx: int,
) -> Seq<char> {
    let back = (pos - lo) / w;
    let before = if back < ctx {
        back
    } else {
        ctx
    };
    let from = pos - before * w;
    Seq::new((before + len) as nat, |m: int| char_of(code_unit(s, from + m * w, w, order)))
}

/// What decides the instances found in a stream: the phrases, the context
/// size, the widths and the byte order.
pub struct ScanConfig {
    pub phrases: Seq<Seq<Seq<char>>>,
    pub context_size: int,
    pub widths: WidthSet,
    pub order: ByteOrder,
}

/// Offset of the first byte the window holds once the stream is `s`.
pub open spec fn window_start(c: ScanConfig, s: Seq<u8>) -> int {
    if s.len() < 4 * c.context_size {
        0
    } else {
        s.len() - 4 * c.context_size
    }
}

/// An instance as the finder sees it: the phrase, the offset of its first
/// byte, its width, the offset just past its last byte, and its context.
pub struct Found {
    pub index: int,
    pub pos: int,
    pub width: int,
    pub end: int,
    pub context: Seq<char>,
}

impl Found {
    /// What a reported instance shows of it.
    pub open spec fn shown(self) -> (int, int, Seq<char>) {
        (self.index, self.pos, self.context)
    }
}

/// How many whole code units of width `w` follow offset `e` in `s`, at most `ctx`.
pub open spec fn after_count(s: Seq<u8>, e: int, w: int, ctx: int) -> int {
    let a = (s.len() - e) / w;
    if a < ctx {
        a
    } else {
        ctx
    }
}

/// The characters of the code units that `after_count` counts.
pub open spec fn after_text(s: Seq<u8>, e: int, w: int, order: ByteOrder, ctx: int) -> Seq<char> {
    Seq::new(after_count(s, e, w, ctx) as nat, |m: int| char_of(code_unit(s, e + m * w, w, order)))
}

/// The instance of phrase `p` in width `w` whose last byte is `s[n - 1]`, if
/// there is one. Its context runs from up to the context size of code units
/// before it (none before the window held when its last byte arrived) to up
/// to the context size of code units after it (none past the end of `s`).
pub open spec fn hit(c: ScanConfig, s: Seq<u8>, n: int, p: int, w: int) -> Seq<Found> {
    let t = render(c.phrases[p]);
    let head = s.take(n);
    if c.widths.has(w) && ends_with_text(head, t, w, c.order) {
        let pos = n - t.len() * w;
        seq![
            Found {
                index: p,
                pos,
                width: w,
                end: n,
                context: context_of(
                    head,
                    window_start(c, head),
                    pos,
                    t.len() as int,
                    w,
                    c.order,
                    c.context_size,
                ) + after_text(s, n, w, c.order, c.context_size),
            },
        ]
    } else {
        Seq::empty()
    }
}

/// The instances of the first `k` phrases whose last byte is `s[n - 1]`: by
/// phrase, then by width.
pub open spec fn hits_upto(c: ScanConfig, s: Seq<u8>, n: int, k: int) -> Seq<Found>
    decreases k,
{
    if k <= 0 {
        Seq::empty()
    } else {
        hits_upto(c, s, n, k - 1) + hit(c, s, n, k - 1, 1) + hit(c, s, n, k - 1, 2) + hit(
            c,
            s,
            n,
            k - 1,
            4,
        )
    }
}

/// The instances whose last byte is `s[n - 1]`.
pub open spec fn hits_at(c: ScanConfig, s: Seq<u8>, n: int) -> Seq<Found> {
    hits_upto(c, s, n, c.phrases.len() as int)
}

/// The instances whose last byte is among the first `n` bytes of `s`, in the
/// order that byte arrives.
pub open spec fn records(c: ScanConfig, s: Seq<u8>, n: int) -> Seq<Found>
    decreases n,
{
    if n <= 0 {
        Seq::empty()
    } else {
        records(c, s, n - 1) + hits_at(c, s, n)
    }
}

/// `f` once the byte `b` follows `s`: one more character of context where a
/// code unit after the instance has just been completed.
pub open spec fn grown(f: Found, s: Seq<u8>, b: u8, c: ScanConfig) -> Found {
    let s2 = s.push(b);
    if after_count(s2, f.end, f.width, c.context_size) > after_count(
        s,
        f.end,
        f.width,
        c.context_size,
    ) {
        Found {
            index: f.index,
            pos: f.pos,
            width: f.width,
            end: f.end,
            context: f.context.push(char_of(code_unit(s2, s2.len() - f.width, f.width, c.order))),
        }
    } else {
        f
    }
}

proof fn lemma_after_step(s: Seq<u8>, b: u8, e: int, w: int, order: ByteOrder, ctx: int)
    requires
        0 <= e <= s.len(),
        w == 1 || w == 2 || w == 4,
        0 <= ctx,
    ensures
        ({
            let a = after_count(s, e, w, ctx);
            let a2 = after_count(s.push(b), e, w, ctx);
            &&& 0 <= a <= ctx
            &&& a * w <= s.len() - e
            &&& a2 == a || a2 == a + 1
            &&& (a2 == a + 1 <==> (a < ctx && s.len() + 1 - e == (a + 1) * w))
            &&& after_text(s.push(b), e, w, order, ctx) == if a2 == a + 1 {
                after_text(s, e, w, order, ctx).push(
                    char_of(code_unit(s.push(b), s.len() + 1 - w, w, order)),
                )
            } else {
                after_text(s, e, w, order, ctx)
            }
        }),
{
    let s2 = s.push(b);
    let d = s.len() - e;
    let q = d / w;
    let q2 = (d + 1) / w;
    assert(q * w <= d < q * w + w && q2 * w <= d + 1 < q2 * w + w && q >= 0) by (nonlinear_arith)
        requires
            q == d / w,
            q2 == (d + 1) / w,
            w >= 1,
            d >= 0,
    ;
    assert(q2 == q || q2 == q + 1) by (nonlinear_arith)
        requires
            q * w <= d < q * w + w,
            q2 * w <= d + 1 < q2 * w + w,
            w >= 1,
    ;
    assert(q2 == q + 1 <==> d + 1 == (q + 1) * w) by (nonlinear_arith)
        requires
            q * w <= d < q * w + w,
            q2 * w <= d + 1 < q2 * w + w,
            q2 == q || q2 == q + 1,
            w >= 1,
    ;
    let a = after_count(s, e, w, ctx);
    assert(a * w <= d) by (nonlinear_arith)
        requires
            a <= q,
            q * w <= d,
            w >= 1,
            a >= 0,
    ;
    let t1 = after_text(s, e, w, order, ctx);
    let t2 = after_text(s2, e, w, order, ctx);
    assert forall|m: int| 0 <= m < a implies #[trigger] code_unit(s2, e + m * w, w, order) == code_unit(
        s,
        e + m * w,
        w,
        order,
    ) by {
        assert(e + m * w + w <= s.len()) by (nonlinear_arith)
            requires
                0 <= m < a,
                a * w <= d,
                d == s.len() - e,
                w >= 1,
        ;
        assert(m * w >= 0) by (nonlinear_arith)
            requires
                m >= 0,
                w >= 1,
        ;
    }
    if after_count(s2, e, w, ctx) == a + 1 {
        assert(e + a * w == s.len() + 1 - w) by (nonlinear_arith)
            requires
                d + 1 == (a + 1) * w,
                d == s.len() - e,
        ;
        assert(t2 =~= t1.push(char_of(code_unit(s2, s.len() + 1 - w, w, order))));
    } else {
        assert(t2 =~= t1);
    }
}

proof fn lemma_hit_step(c: ScanConfig, s: Seq<u8>, b: u8, n: int, p: int, w: int)
    requires
        0 <= n <= s.len(),
        0 <= c.context_size,
        w == 1 || w == 2 || w == 4,
    ensures
        hit(c, s.push(b), n, p, w) == hit(c, s, n, p, w).map_values(|f: Found| grown(f, s, b, c)),
{
    assert(s.push(b).take(n) =~= s.take(n));
    lemma_after_step(s, b, n, w, c.order, c.context_size);
    let g = |f: Found| grown(f, s, b, c);
    let h = hit(c, s, n, p, w);
    if h.len() > 0 {
        let f = h[0];
        let a = after_text(s, n, w, c.order, c.context_size);
        let before = f.context.subrange(0, f.context.len() - a.len());
        assert(f.context =~= before + a);
        let x = char_of(code_unit(s.push(b), s.len() + 1 - w, w, c.order));
        assert((before + a).push(x) =~= before + a.push(x));
    }
    assert(hit(c, s.push(b), n, p, w) =~= h.map_values(g));
}

proof fn lemma_hits_step(c: ScanConfig, s: Seq<u8>, b: u8, n: int, k: int)
    requires
        0 <= n <= s.len(),
        0 <= k <= c.phrases.len(),
        0 <= c.context_size,
    ensures
        hits_upto(c, s.push(b), n, k) == hits_upto(c, s, n, k).map_values(
            |f: Found| grown(f, s, b, c),
        ),
    decreases k,
{
    if k > 0 {
        lemma_hits_step(c, s, b, n, k - 1);
        lemma_hit_step(c, s, b, n, k - 1, 1);
        lemma_hit_step(c, s, b, n, k - 1, 2);
        lemma_hit_step(c, s, b, n, k - 1, 4);
        let g = |f: Found| grown(f, s, b, c);
        let h0 = hits_upto(c, s, n, k - 1);
        let h1 = hit(c, s, n, k - 1, 1);
        let h2 = hit(c, s, n, k - 1, 2);
        let h4 = hit(c, s, n, k - 1, 4);
        assert((h0 + h1 + h2 + h4).map_values(g) =~= h0.map_values(g) + h1.map_values(g)
            + h2.map_values(g) + h4.map_values(g));
    } else {
        assert(hits_upto(c, s.push(b), n, k) =~= hits_upto(c, s, n, k).map_values(
            |f: Found| grown(f, s, b, c),
        ));
    }
}

/// One more byte adds at most one character of trailing context to each
/// instance found so far, and changes nothing else.
proof fn lemma_records_step(c: ScanConfig, s: Seq<u8>, b: u8, n: int)
    requires
        0 <= n <= s.len(),
        0 <= c.context_size,
    ensures
        records(c, s.push(b), n) == records(c, s, n).map_values(|f: Found| grown(f, s, b, c)),
    decreases n,
{
    let g = |f: Found| grown(f, s, b, c);
    if n > 0 {
        lemma_records_step(c, s, b, n - 1);
        lemma_hits_step(c, s, b, n, c.phrases.len() as int);
        let r0 = records(c, s, n - 1);
        let h = hits_at(c, s, n);
        assert((r0 + h).map_values(g) =~= r0.map_values(g) + h.map_values(g));
    } else {
        assert(records(c, s.push(b), n) =~= records(c, s, n).map_values(g));
    }
}

/// Every instance found has a width of 1, 2 or 4 and ends within the bytes
/// looked at.
/// Whether `f` is an occurrence, in the first `n` bytes of `s`, of the phrase
/// it names, in a selected width.
pub open spec fn is_occurrence(c: ScanConfig, s: Seq<u8>, f: Found) -> bool {
    let t = render(c.phrases[f.index]);
    &&& 0 <= f.index < c.phrases.len()
    &&& c.widths.has(f.width)
    &&& 0 <= f.end <= s.len()
    &&& ends_with_text(s.take(f.end), t, f.width, c.order)
    &&& f.pos == f.end - t.len() * f.width
}

proof fn lemma_records_shape(c: ScanConfig, s: Seq<u8>, n: int)
    requires
        0 <= n <= s.len(),
    ensures
        forall|k: int|
            0 <= k < records(c, s, n).len() ==> {
                let f = #[trigger] records(c, s, n)[k];
                &&& f.width == 1 || f.width == 2 || f.width == 4
                &&& 0 <= f.end <= n
                &&& is_occurrence(c, s, f)
            },
    decreases n,
{
    if n > 0 {
        lemma_records_shape(c, s, n - 1);
        lemma_hits_shape(c, s, n, c.phrases.len() as int);
        let r0 = records(c, s, n - 1);
        assert(records(c, s, n) == r0 + hits_at(c, s, n));
        let h = hits_at(c, s, n);
        assert forall|k: int| 0 <= k < records(c, s, n).len() implies {
            let f = #[trigger] records(c, s, n)[k];
            &&& f.width == 1 || f.width == 2 || f.width == 4
            &&& 0 <= f.end <= n
            &&& is_occurrence(c, s, f)
        } by {
            if k < r0.len() {
                assert(records(c, s, n)[k] == r0[k]);
            } else {
                assert(records(c, s, n)[k] == h[k - r0.len()]);
            }
        }
    }
}

proof fn lemma_hits_shape(c: ScanConfig, s: Seq<u8>, n: int, k: int)
    requires
        0 <= n <= s.len(),
        k <= c.phrases.len(),
    ensures
        forall|j: int|
            0 <= j < hits_upto(c, s, n, k).len() ==> {
                let f = #[trigger] hits_upto(c, s, n, k)[j];
                &&& f.width == 1 || f.width == 2 || f.width == 4
                &&& f.end == n
                &&& f.index < k
                &&& is_occurrence(c, s, f)
            },
    decreases k,
{
    if k > 0 {
        lemma_hits_shape(c, s, n, k - 1);
        let h0 = hits_upto(c, s, n, k - 1);
        let h1 = hit(c, s, n, k - 1, 1);
        let h2 = hit(c, s, n, k - 1, 2);
        let h4 = hit(c, s, n, k - 1, 4);
        assert forall|j: int| 0 <= j < hits_upto(c, s, n, k).len() implies {
            let f = #[trigger] hits_upto(c, s, n, k)[j];
            &&& f.width == 1 || f.width == 2 || f.width == 4
            &&& f.end == n
            &&& f.index < k
            &&& is_occurrence(c, s, f)
        } by {
            let all = hits_upto(c, s, n, k);
            assert(all == h0 + h1 + h2 + h4);
            if j < h0.len() {
                assert(all[j] == h0[j]);
            } else if j < h0.len() + h1.len() {
                assert(all[j] == h1[j - h0.len()]);
            } else if j < h0.len() + h1.len() + h2.len() {
                assert(all[j] == h2[j - h0.len() - h1.len()]);
            } else {
                assert(all[j] == h4[j - h0.len() - h1.len() - h2.len()]);
            }
        }
    }
}

proof fn lemma_hits_contain(c: ScanConfig, s: Seq<u8>, n: int, k: int, p: int, w: int)
    requires
        0 <= p < k,
        w == 1 || w == 2 || w == 4,
        hit(c, s, n, p, w).len() > 0,
    ensures
        hits_upto(c, s, n, k).contains(hit(c, s, n, p, w)[0]),
    decreases k,
{
    let x = hit(c, s, n, p, w)[0];
    let h0 = hits_upto(c, s, n, k - 1);
    let h1 = hit(c, s, n, k - 1, 1);
    let h2 = hit(c, s, n, k - 1, 2);
    let h4 = hit(c, s, n, k - 1, 4);
    let all = hits_upto(c, s, n, k);
    assert(all == h0 + h1 + h2 + h4);
    if p < k - 1 {
        lemma_hits_contain(c, s, n, k - 1, p, w);
        let i = choose|i: int| 0 <= i < h0.len() && h0[i] == x;
        assert(all[i] == x);
    } else if w == 1 {
        assert(all[h0.len() as int] == x);
    } else if w == 2 {
        assert(all[h0.len() + h1.len() as int] == x);
    } else {
        assert(all[h0.len() + h1.len() + h2.len() as int] == x);
    }
}

proof fn lemma_records_contain(c: ScanConfig, s: Seq<u8>, n: int, m: int, x: Found)
    requires
        0 < n <= m,
        hits_at(c, s, n).contains(x),
    ensures
        records(c, s, m).contains(x),
    decreases m,
{
    let r0 = records(c, s, m - 1);
    assert(records(c, s, m) == r0 + hits_at(c, s, m));
    if m > n {
        lemma_records_contain(c, s, n, m - 1, x);
        let i = choose|i: int| 0 <= i < r0.len() && r0[i] == x;
        assert(records(c, s, m)[i] == x);
    } else {
        let i = choose|i: int| 0 <= i < hits_at(c, s, n).len() && hits_at(c, s, n)[i] == x;
        assert(records(c, s, m)[r0.len() + i] == x);
    }
}

/// The instances found in a stream are exactly the occurrences of the phrases
/// in the selected widths, wherever the window stood: every instance is an
/// occurrence, and every occurrence is an instance with its first byte's
/// offset.
pub proof fn lemma_records_are_occurrences(c: ScanConfig, s: Seq<u8>, p: int, w: int, n: int)
    requires
        0 <= p < c.phrases.len(),
        w == 1 || w == 2 || w == 4,
    ensures
        forall|k: int|
            0 <= k < records(c, s, s.len() as int).len() ==> is_occurrence(
                c,
                s,
                #[trigger] records(c, s, s.len() as int)[k],
            ),
        0 < n <= s.len() && c.widths.has(w) && ends_with_text(
            s.take(n),
            render(c.phrases[p]),
            w,
            c.order,
        ) ==> exists|k: int|
            0 <= k < records(c, s, s.len() as int).len() && {
                let f = #[trigger] records(c, s, s.len() as int)[k];
                &&& f.index == p
                &&& f.width == w
                &&& f.end == n
                &&& f.pos == n - render(c.phrases[p]).len() * w
            },
{
    lemma_records_shape(c, s, s.len() as int);
    if 0 < n <= s.len() && c.widths.has(w) && ends_with_text(
        s.take(n),
        render(c.phrases[p]),
        w,
        c.order,
    ) {
        let x = hit(c, s, n, p, w)[0];
        lemma_hits_contain(c, s, n, c.phrases.len() as int, p, w);
        lemma_records_contain(c, s, n, s.len() as int, x);
        let k = choose|k: int|
            0 <= k < records(c, s, s.len() as int).len() && records(c, s, s.len() as int)[k] == x;
        assert(records(c, s, s.len() as int)[k] == x);
    }
}

/// Finds phrases in a byte stream fed to it one byte at a time.
pub struct TextFinder {
    phrases: Vec<Phrase>,
    targets: Vec<Vec<char>>,
    window: SlidingWindow,
    context_size: usize,
    widths: WidthSet,
    order: ByteOrder,
    /// Instances found but still gathering trailing context, oldest first.
    pending: Vec<Pending>,
    /// Every instance reported so far.
    emitted: Ghost<Seq<Found>>,
}

/// An instance waiting for the code units that follow it.
struct Pending {
    index: usize,
    pos: usize,
    width: usize,
    end: usize,
    /// Code units of trailing context gathered so far.
    after: usize,
    context: Vec<char>,
}

impl Pending {
    spec fn found(&self) -> Found {
        Found {
            index: self.index as int,
            pos: self.pos as int,
            width: self.width as int,
            end: self.end as int,
            context: self.context@,
        }
    }

    /// Whether the entry agrees with the stream `s` under context size `ctx`.
    spec fn tracks(&self, s: Seq<u8>, ctx: int) -> bool {
        &&& self.width == 1 || self.width == 2 || self.width == 4
        &&& self.end <= s.len()
        &&& self.after == after_count(s, self.end as int, self.width as int, ctx)
    }
}

impl TextFinder {
    /// The phrases searched for.
    pub closed spec fn phrases(&self) -> Seq<Seq<Seq<char>>> {
        self.phrases@.map_values(|p: Phrase| p@)
    }

    pub closed spec fn context_size(&self) -> int {
        self.context_size as int
    }

    pub closed spec fn widths(&self) -> WidthSet {
        self.widths
    }

    pub closed spec fn order(&self) -> ByteOrder {
        self.order
    }

    /// Every byte fed so far.
    pub closed spec fn stream(&self) -> Seq<u8> {
        self.window.stream()
    }

    /// The bytes held in the window.
    pub closed spec fn retained(&self) -> Seq<u8> {
        self.window.contents()
    }

    pub open spec fn config(&self) -> ScanConfig {
        ScanConfig {
            phrases: self.phrases(),
            context_size: self.context_size(),
            widths: self.widths(),
            order: self.order(),
        }
    }

    /// Every instance reported so far, in order.
    pub closed spec fn emitted(&self) -> Seq<Found> {
        self.emitted@
    }

    /// The instances found but not yet reported, in order.
    pub closed spec fn pending(&self) -> Seq<Found> {
        self.pending@.map_values(|e: Pending| e.found())
    }

    pub closed spec fn wf(&self) -> bool {
        &&& self.emitted@ + self.pending() == records(
            self.config(),
            self.stream(),
            self.stream().len() as int,
        )
        &&& forall|k: int|
            0 <= k < self.pending@.len() ==> (#[trigger] self.pending@[k]).tracks(
                self.stream(),
                self.context_size as int,
            )
        &&& forall|k: int|
            0 <= k < self.emitted@.len() ==> after_count(
                self.stream(),
                (#[trigger] self.emitted@[k]).end,
                self.emitted@[k].width,
                self.context_size as int,
            ) == self.context_size
        &&& self.ready()
    }

    /// The window and the phrases agree with the configuration.
    pub closed spec fn ready(&self) -> bool {
        &&& self.window.wf()
        &&& self.window.capacity() == 4 * self.context_size
        &&& self.context_size <= usize::MAX / 8
        &&& self.targets@.len() == self.phrases@.len()
        &&& forall|i: int|
            0 <= i < self.phrases@.len() ==> #[trigger] self.targets@[i]@ == render(
                self.phrases@[i]@,
            )
        &&& forall|i: int|
            0 <= i < self.phrases@.len() ==> joined_len_of(#[trigger] self.phrases@[i]@)
                <= self.context_size
    }

    /// The retained bytes are the last ones of the stream, never more than
    /// four bytes for each character of context.
    pub proof fn lemma_window_bounded(&self)
        requires
            self.wf(),
        ensures
            self.retained().len() <= 4 * self.context_size(),
            self.retained() == self.stream().subrange(
                window_start(self.config(), self.stream()),
                self.stream().len() as int,
            ),
    {
    }

    /// Whether the window ends with `t` written as code units of width `w`.
    fn window_ends_with(&self, t: &Vec<char>, w: usize) -> (r: bool)
        requires
            self.ready(),
            w == 1 || w == 2 || w == 4,
            t@.len() <= self.context_size(),
        ensures
            r == ends_with_text(self.stream(), t@, w as int, self.order()),
            r ==> t@.len() * w <= self.retained().len(),
    {
        let ghost s = self.stream();
        let n = self.window.len();
        let l = t.len();
        let ghost lo = s.len() - n;
        let ghost ctx = self.context_size as int;
        assert(l * w <= 4 * ctx) by (nonlinear_arith)
            requires
                l <= ctx,
                w <= 4,
        ;
        if l == 0 {
            return false;
        }
        if l > n / w {
            assert(l * w > n) by (nonlinear_arith)
                requires
                    l > n / w,
                    w >= 1,
            ;
            return false;
        }
        assert(l * w <= n) by (nonlinear_arith)
            requires
                l <= n / w,
                w >= 1,
        ;
        let pos = n - l * w;
        let mut idx = pos;
        let mut j: usize = 0;
        while j < l
            invariant
                self.ready(),
                s == self.stream(),
                n == self.retained().len(),
                lo == s.len() - n,
                w == 1 || w == 2 || w == 4,
                l == t@.len(),
                0 <= j <= l,
                pos + l * w == n,
                idx == pos + j * w,
                forall|k: int|
                    0 <= k < j ==> code_unit(s, s.len() - l * w + k * w, w as int, self.order)
                        == (#[trigger] t@[k]) as u32 as int,
            decreases l - j,
        {
            assert(idx + w <= n) by (nonlinear_arith)
                requires
                    idx == pos + j * w,
                    j < l,
                    pos + l * w == n,
                    w >= 1,
            ;
            let u = unit_at(&self.window, idx, w, self.order);
            proof {
                lemma_code_unit_suffix(s, lo, idx as int, w as int, self.order);
            }
            if u != t[j] as u32 {
                return false;
            }
            assert((j + 1) * w == j * w + w) by (nonlinear_arith);
            idx = idx + w;
            j = j + 1;
        }
        true
    }

    /// The characters in width `w` from up to the context size before window
    /// position `pos` through the `l` code units that end the window.
    fn context_at(&self, pos: usize, l: usize, w: usize) -> (r: Vec<char>)
        requires
            self.ready(),
            w == 1 || w == 2 || w == 4,
            l <= self.context_size(),
            pos + l * w == self.retained().len(),
        ensures
            r@ == context_of(
                self.stream(),
                self.stream().len() - self.retained().len(),
                self.stream().len() - self.retained().len() + pos,
                l as int,
                w as int,
                self.order(),
                self.context_size(),
            ),
    {
        let ghost s = self.stream();
        let n = self.window.len();
        let ghost lo = s.len() - n;
        let back = pos / w;
        let before = if back < self.context_size {
            back
        } else {
            self.context_size
        };
        assert(before * w <= pos) by (nonlinear_arith)
            requires
                before <= pos / w,
                w >= 1,
        ;
        let from = pos - before * w;
        let total = before + l;
        assert(from + total * w == n) by (nonlinear_arith)
            requires
                from == pos - before * w,
                total == before + l,
                pos + l * w == n,
        ;
        let mut out: Vec<char> = Vec::new();
        let mut m: usize = 0;
        let mut idx = from;
        while m < total
            invariant
                self.ready(),
                s == self.stream(),
                n == self.retained().len(),
                lo == s.len() - n,
                w == 1 || w == 2 || w == 4,
                0 <= m <= total,
                from + total * w == n,
                idx == from + m * w,
                out@.len() == m,
                forall|k: int|
                    0 <= k < m ==> #[trigger] out@[k] == char_of(
                        code_unit(s, lo + from + k * w, w as int, self.order),
                    ),
            decreases total - m,
        {
            assert(idx + w <= n) by (nonlinear_arith)
                requires
                    idx == from + m * w,
                    m < total,
                    from + total * w == n,
                    w >= 1,
            ;
            let u = unit_at(&self.window, idx, w, self.order);
            proof {
                lemma_code_unit_suffix(s, lo, idx as int, w as int, self.order);
            }
            out.push(decode_char(u));
            assert((m + 1) * w == m * w + w) by (nonlinear_arith);
            idx = idx + w;
            m = m + 1;
        }
        let ghost want = context_of(s, lo, lo + pos, l as int, w as int, self.order, self.context_size as int);
        assert(out@ =~= want);
        out
    }

    /// Appends to `out` the instance of phrase `p` in width `w` that ends with
    /// the last byte fed, if there is one.
    fn check(&self, p: usize, w: usize, out: &mut Vec<Pending>)
        requires
            self.ready(),
            p < self.phrases().len(),
            w == 1 || w == 2 || w == 4,
        ensures
            final(out)@.map_values(|e: Pending| e.found()) == old(out)@.map_values(
                |e: Pending| e.found(),
            ) + hit(self.config(), self.stream(), self.stream().len() as int, p as int, w as int),
            forall|k: int|
                0 <= k < old(out)@.len() ==> final(out)@[k] == old(out)@[k],
            forall|k: int|
                old(out)@.len() <= k < final(out)@.len() ==> (#[trigger] final(out)@[k]).tracks(
                    self.stream(),
                    self.context_size(),
                ),
    {
        let ghost before = out@;
        let ghost s = self.stream();
        let enabled = if w == 1 {
            self.widths.one
        } else if w == 2 {
            self.widths.two
        } else {
            self.widths.four
        };
        let t = &self.targets[p];
        proof {
            lemma_render_len(self.phrases@[p as int]@);
            assert(self.phrases()[p as int] == self.phrases@[p as int]@);
            assert(s.take(s.len() as int) =~= s);
            assert(after_text(s, s.len() as int, w as int, self.order, self.context_size as int)
                =~= Seq::<char>::empty());
        }
        if enabled && self.window_ends_with(t, w) {
            let n = self.window.len();
            let l = t.len();
            let pos = n - l * w;
            let context = self.context_at(pos, l, w);
            let start = self.window.consumed() - n;
            let end = self.window.consumed();
            let e = Pending { index: p, pos: start + pos, width: w, end, after: 0, context };
            out.push(e);
            assert(context@ + Seq::<char>::empty() =~= context@);
            assert(out@.map_values(|e: Pending| e.found()) =~= before.map_values(
                |e: Pending| e.found(),
            ) + hit(self.config(), s, s.len() as int, p as int, w as int));
        } else {
            assert(before.map_values(|e: Pending| e.found()) =~= before.map_values(
                |e: Pending| e.found(),
            ) + hit(self.config(), s, s.len() as int, p as int, w as int));
        }
    }

    /// How many bytes the window holds.
    pub fn retained_len(&self) -> (r: usize)
        ensures
            r == self.retained().len(),
    {
        self.window.len()
    }

    /// How many bytes have been fed.
    pub fn consumed(&self) -> (r: usize)
        requires
            self.wf(),
        ensures
            r == self.stream().len(),
    {
        self.window.consumed()
    }

    /// Adds one character of trailing context to each waiting instance whose
    /// next code unit the last byte completed.
    fn grow_pending(&mut self, Ghost(s): Ghost<Seq<u8>>, Ghost(b): Ghost<u8>)
        requires
            old(self).window.wf(),
            old(self).window.capacity() == 4 * old(self).context_size,
            old(self).context_size <= usize::MAX / 8,
            old(self).stream() == s.push(b),
            forall|k: int|
                0 <= k < old(self).pending@.len() ==> (#[trigger] old(self).pending@[k]).tracks(
                    s,
                    old(self).context_size as int,
                ),
        ensures
            final(self).window == old(self).window,
            final(self).phrases == old(self).phrases,
            final(self).targets == old(self).targets,
            final(self).context_size == old(self).context_size,
            final(self).widths == old(self).widths,
            final(self).order == old(self).order,
            final(self).emitted == old(self).emitted,
            final(self).pending() == old(self).pending().map_values(
                |f: Found| grown(f, s, b, old(self).config()),
            ),
            forall|k: int|
                0 <= k < final(self).pending@.len() ==> (#[trigger] final(self).pending@[k]).tracks(
                    s.push(b),
                    final(self).context_size as int,
                ),
    {
        let ghost c = self.config();
        let ghost ctx = self.context_size as int;
        let ghost s2 = s.push(b);
        let mut rest: Vec<Pending> = Vec::new();
        core::mem::swap(&mut rest, &mut self.pending);
        let ghost orig = rest@;
        let n = rest.len();
        let total = self.window.consumed();
        let mut k: usize = 0;
        while k < n
            invariant
                self.window == old(self).window,
                self.phrases == old(self).phrases,
                self.targets == old(self).targets,
                self.widths == old(self).widths,
                self.emitted == old(self).emitted,
                self.window.wf(),
                self.window.capacity() == 4 * self.context_size,
                self.context_size == old(self).context_size,
                self.context_size <= usize::MAX / 8,
                self.order == old(self).order,
                self.stream() == s2,
                s2 == s.push(b),
                c == old(self).config(),
                ctx == self.context_size,
                total == s2.len(),
                orig == old(self).pending@,
                n == orig.len(),
                0 <= k <= n,
                rest@ == orig.subrange(k as int, n as int),
                self.pending@.len() == k,
                forall|j: int| 0 <= j < n ==> (#[trigger] orig[j]).tracks(s, ctx),
                forall|j: int|
                    0 <= j < k ==> (#[trigger] self.pending@[j]).found() == grown(
                        orig[j].found(),
                        s,
                        b,
                        c,
                    ) && self.pending@[j].tracks(s2, ctx),
            decreases n - k,
        {
            let mut e = rest.remove(0);
            assert(e == orig[k as int]);
            assert(orig[k as int].tracks(s, ctx));
            assert(e.end <= s.len());
            proof {
                lemma_after_step(s, b, e.end as int, e.width as int, self.order, ctx);
            }
            let ghost f0 = orig[k as int].found();
            let ghost a = after_count(s, e.end as int, e.width as int, ctx);
            let ghost a2 = after_count(s2, e.end as int, e.width as int, ctx);
            assert(e.found() == f0);
            assert(total == s.len() + 1);
            assert(e.end <= total);
            if e.after < self.context_size {
                assert((e.after + 1) * e.width <= 4 * self.context_size) by (nonlinear_arith)
                    requires
                        e.after < self.context_size,
                        e.width <= 4,
                ;
                if total - e.end == (e.after + 1) * e.width {
                    let wl = self.window.len();
                    assert(e.width <= (e.after + 1) * e.width) by (nonlinear_arith)
                        requires
                            e.width >= 1,
                    ;
                    let u = unit_at(&self.window, wl - e.width, e.width, self.order);
                    proof {
                        lemma_code_unit_suffix(
                            s2,
                            s2.len() - wl,
                            wl - e.width,
                            e.width as int,
                            self.order,
                        );
                    }
                    let ch = decode_char(u);
                    assert(ch == char_of(code_unit(s2, s.len() + 1 - e.width, e.width as int, c.order)));
                    assert(a2 == a + 1);
                    e.context.push(ch);
                    e.after = e.after + 1;
                    assert(e.found().context == f0.context.push(ch));
                    assert(e.found() == grown(f0, s, b, c));
                } else {
                    assert(a2 == a);
                }
            } else {
                assert(a2 == a);
            }
            assert(e.found() == grown(orig[k as int].found(), s, b, c));
            assert(e.tracks(s2, ctx));
            self.pending.push(e);
            k = k + 1;
        }
        assert(self.pending() =~= old(self).pending().map_values(|f: Found| grown(f, s, b, c)));
    }

    /// Feeds one byte. Returns the instances whose trailing context is now
    /// complete and that no earlier instance still waits in front of.
    pub fn push_byte(&mut self, b: u8) -> (r: Vec<PhraseInstance>)
        requires
            old(self).wf(),
            old(self).stream().len() < usize::MAX,
        ensures
            final(self).wf(),
            final(self).config() == old(self).config(),
            final(self).stream() == old(self).stream().push(b),
            final(self).emitted().map_values(|f: Found| f.shown()) == old(self).emitted().map_values(
                |f: Found| f.shown(),
            ) + r@.map_values(|h: PhraseInstance| h@),
    {
        let ghost s = self.stream();
        let ghost c = self.config();
        let ghost ctx = self.context_size as int;
        let ghost e0 = self.emitted@;
        let ghost p0 = self.pending();
        self.window.push(b);
        let ghost s2 = self.stream();
        proof {
            lemma_records_step(c, s, b, s.len() as int);
        }
        self.grow_pending(Ghost(s), Ghost(b));
        proof {
            let g = |f: Found| grown(f, s, b, c);
            assert forall|k: int| 0 <= k < e0.len() implies #[trigger] g(e0[k]) == e0[k]
                && after_count(s2, e0[k].end, e0[k].width, ctx) == ctx by {
                lemma_records_shape(c, s, s.len() as int);
                assert(records(c, s, s.len() as int)[k] == e0[k]);
                lemma_after_step(s, b, e0[k].end, e0[k].width, c.order, ctx);
            }
            assert(e0.map_values(g) =~= e0);
            assert((e0 + p0).map_values(g) =~= e0.map_values(g) + p0.map_values(g));
        }
        let mut fresh: Vec<Pending> = Vec::new();
        let mut p: usize = 0;
        assert(fresh@.map_values(|e: Pending| e.found()) =~= hits_upto(c, s2, s2.len() as int, 0));
        while p < self.phrases.len()
            invariant
                self.ready(),
                self.config() == c,
                self.stream() == s2,
                ctx == self.context_size,
                0 <= p <= self.phrases@.len(),
                fresh@.map_values(|e: Pending| e.found()) == hits_upto(c, s2, s2.len() as int, p as int),
                forall|k: int| 0 <= k < fresh@.len() ==> (#[trigger] fresh@[k]).tracks(s2, ctx),
            decreases self.phrases@.len() - p,
        {
            self.check(p, 1, &mut fresh);
            self.check(p, 2, &mut fresh);
            self.check(p, 4, &mut fresh);
            p = p + 1;
        }
        let ghost pend = self.pending@;
        let ghost fresh_before = fresh@;
        self.pending.append(&mut fresh);
        assert(self.pending() =~= pend.map_values(|e: Pending| e.found()) + hits_at(c, s2, s2.len() as int));
        proof {
            assert(records(c, s2, s2.len() as int) == records(c, s2, s.len() as int) + hits_at(
                c,
                s2,
                s2.len() as int,
            ));
            assert(self.emitted@ + self.pending() =~= e0 + pend.map_values(|e: Pending| e.found())
                + hits_at(c, s2, s2.len() as int));
            assert forall|k: int| 0 <= k < self.pending@.len() implies (#[trigger] self.pending@[
                k
            ]).tracks(s2, ctx) by {
                if k < pend.len() {
                    assert(self.pending@[k] == pend[k]);
                } else {
                    assert(self.pending@[k] == fresh_before[k - pend.len()]);
                }
            }
        }
        let mut out: Vec<PhraseInstance> = Vec::new();
        while self.pending.len() > 0 && self.pending[0].after == self.context_size
            invariant
                self.wf(),
                self.config() == c,
                self.stream() == s2,
                self.emitted().map_values(|f: Found| f.shown()) == e0.map_values(|f: Found| f.shown())
                    + out@.map_values(|h: PhraseInstance| h@),
            decreases self.pending@.len(),
        {
            let ghost before = self.pending@;
            let ghost em = self.emitted@;
            let ghost o = out@;
            let e = self.pending.remove(0);
            let h = PhraseInstance { index: e.index, pos: e.pos, context: string_of(&e.context) };
            out.push(h);
            self.emitted = Ghost(self.emitted@.push(e.found()));
            proof {
                assert(self.pending@ =~= before.drop_first());
                assert(em.push(e.found()) + self.pending() =~= em + before.map_values(
                    |e: Pending| e.found(),
                ));
                assert(self.emitted().map_values(|f: Found| f.shown()) =~= em.map_values(
                    |f: Found| f.shown(),
                ).push(e.found().shown()));
                assert(out@.map_values(|h: PhraseInstance| h@) =~= o.map_values(
                    |h: PhraseInstance| h@,
                ).push(h@));
            }
        }
        out
    }

    /// Feeds `bytes` in order and returns what the single steps report.
    pub fn feed(&mut self, bytes: &[u8]) -> (r: Vec<PhraseInstance>)
        requires
            old(self).wf(),
            old(self).stream().len() + bytes@.len() <= usize::MAX,
        ensures
            final(self).wf(),
            final(self).config() == old(self).config(),
            final(self).stream() == old(self).stream() + bytes@,
            final(self).emitted().map_values(|f: Found| f.shown()) == old(self).emitted().map_values(
                |f: Found| f.shown(),
            ) + r@.map_values(|h: PhraseInstance| h@),
    {
        let ghost s0 = self.stream();
        let ghost e0 = self.emitted().map_values(|f: Found| f.shown());
        let mut out: Vec<PhraseInstance> = Vec::new();
        let mut i: usize = 0;
        assert(s0 + bytes@.take(0) =~= s0);
        assert(e0 + out@.map_values(|h: PhraseInstance| h@) =~= e0);
        while i < bytes.len()
            invariant
                self.wf(),
                self.config() == old(self).config(),
                s0 == old(self).stream(),
                e0 == old(self).emitted().map_values(|f: Found| f.shown()),
                0 <= i <= bytes@.len(),
                s0.len() + bytes@.len() <= usize::MAX,
                self.stream() == s0 + bytes@.take(i as int),
                self.emitted().map_values(|f: Found| f.shown()) == e0 + out@.map_values(
                    |h: PhraseInstance| h@,
                ),
            decreases bytes@.len() - i,
        {
            let ghost before = out@;
            let mut found = self.push_byte(bytes[i]);
            let ghost f = found@;
            out.append(&mut found);
            proof {
                assert(s0 + bytes@.take(i + 1) =~= (s0 + bytes@.take(i as int)).push(bytes@[i as int]));
                assert(out@.map_values(|h: PhraseInstance| h@) =~= before.map_values(
                    |h: PhraseInstance| h@,
                ) + f.map_values(|h: PhraseInstance| h@));
            }
            i = i + 1;
        }
        assert(bytes@.take(i as int) =~= bytes@);
        out
    }

    /// Ends the stream: returns the instances still waiting, with what
    /// trailing context the stream had for them. Together with all that was
    /// reported before, these are every instance in the stream.
    pub fn finish(self) -> (r: Vec<PhraseInstance>)
        requires
            self.wf(),
        ensures
            self.emitted().map_values(|f: Found| f.shown()) + r@.map_values(|h: PhraseInstance| h@)
                == records(self.config(), self.stream(), self.stream().len() as int).map_values(
                |f: Found| f.shown(),
            ),
    {
        let mut out: Vec<PhraseInstance> = Vec::new();
        let mut k: usize = 0;
        while k < self.pending.len()
            invariant
                0 <= k <= self.pending@.len(),
                out@.map_values(|h: PhraseInstance| h@) == self.pending().take(k as int).map_values(
                    |f: Found| f.shown(),
                ),
            decreases self.pending@.len() - k,
        {
            let e = &self.pending[k];
            let h = PhraseInstance { index: e.index, pos: e.pos, context: string_of(&e.context) };
            let ghost o = out@;
            out.push(h);
            assert(self.pending()[k as int] == self.pending@[k as int].found());
            assert(h@ == self.pending()[k as int].shown());
            assert(out@.map_values(|h: PhraseInstance| h@) =~= o.map_values(|h: PhraseInstance| h@).push(h@));
            assert(self.pending().take(k + 1) =~= self.pending().take(k as int).push(
                self.pending()[k as int],
            ));
            assert(out@.map_values(|h: PhraseInstance| h@) =~= self.pending().take(k + 1).map_values(
                |f: Found| f.shown(),
            ));
            k = k + 1;
        }
        let ghost all = records(self.config(), self.stream(), self.stream().len() as int);
        assert(self.pending().take(k as int) =~= self.pending());
        assert(all.map_values(|f: Found| f.shown()) =~= self.emitted().map_values(
            |f: Found| f.shown(),
        ) + self.pending().map_values(|f: Found| f.shown()));
        out
    }

    /// Builds a finder for `phrases`, whose instances are reported with up to
    /// `context_size` characters of context on each side.
    pub fn new(
        phrases: Vec<Phrase>,
        context_size: usize,
        widths: WidthSet,
        order: ByteOrder,
    ) -> (r: Result<TextFinder, ConfigError>)
        ensures
            widths.is_none() ==> r == Err::<TextFinder, ConfigError>(ConfigError::NoWidths),
            !widths.is_none() && context_size > usize::MAX / 8 ==> r == Err::<
                TextFinder,
                ConfigError,
            >(ConfigError::ContextTooLarge),
            r is Ok <==> !widths.is_none() && context_size <= usize::MAX / 8 && forall|i: int|
                0 <= i < phrases@.len() ==> joined_len_of(#[trigger] phrases@[i]@)
                    <= context_size,
            r matches Err(ConfigError::PhraseTooLong { index }) ==> {
                &&& index < phrases@.len()
                &&& joined_len_of(phrases@[index as int]@) > context_size
                &&& forall|j: int|
                    0 <= j < index ==> joined_len_of(#[trigger] phrases@[j]@) <= context_size
            },
            r is Err && !widths.is_none() && context_size <= usize::MAX / 8 ==> r->Err_0 is PhraseTooLong,
            r matches Ok(f) ==> {
                &&& f.wf()
                &&& f.phrases() == phrases@.map_values(|p: Phrase| p@)
                &&& f.context_size() == context_size
                &&& f.widths() == widths
                &&& f.order() == order
                &&& f.stream() == Seq::<u8>::empty()
            },
    {
        if !widths.one && !widths.two && !widths.four {
            return Err(ConfigError::NoWidths);
        }
        if context_size > usize::MAX / 8 {
            return Err(ConfigError::ContextTooLarge);
        }
        let mut targets: Vec<Vec<char>> = Vec::new();
        let mut i: usize = 0;
        while i < phrases.len()
            invariant
                0 <= i <= phrases@.len(),
                !widths.is_none(),
                context_size <= usize::MAX / 8,
                targets@.len() == i,
                forall|k: int| 0 <= k < i ==> #[trigger] targets@[k]@ == render(phrases@[k]@),
                forall|k: int|
                    0 <= k < i ==> joined_len_of(#[trigger] phrases@[k]@) <= context_size,
            decreases phrases.len() - i,
        {
            if !phrases[i].fits_within(context_size) {
                return Err(ConfigError::PhraseTooLong { index: i });
            }
            targets.push(phrases[i].rendered());
            i = i + 1;
        }
        let f = TextFinder {
            phrases,
            targets,
            window: SlidingWindow::new(4 * context_size),
            context_size,
            widths,
            order,
            pending: Vec::new(),
            emitted: Ghost(Seq::empty()),
        };
        assert(f.pending() =~= Seq::<Found>::empty());
        assert(f.emitted@ + f.pending() =~= records(f.config(), f.stream(), 0));
        Ok(f)
    }
}

} // verus!
