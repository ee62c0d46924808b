//! The preprocessor: blanks out comments with the filler byte while keeping
//! string and character literals, and every byte offset, intact.
use vstd::prelude::*;
use vstd::utf8::encode_utf8;
use crate::text::{
    decimal, lemma_replace_pair_identity, normalize_newlines, position_at, position_of,
    push_decimal, replace_pair_bytes, Position, FILLER,
};

verus! {

/// One block-comment style: its start and end markers.
pub struct LongCommentActivation {
    pub start: String,
    pub end: String,
}

/// A preprocessor for a fixed set of comment markers. Markers are matched as
/// bytes; one that is empty or holds the filler byte matches nothing.
#[derive(Default)]
pub struct Preprocessor {
    pub line_comment_activators: Vec<String>,
    pub long_comment_activators: Vec<LongCommentActivation>,
}

/// A problem found while preprocessing, at a zero-based line and column.
pub struct PreprocessorError {
    pub pos: Position,
    pub what: String,
}

pub open spec fn unterminated_comment_message() -> Seq<char> {
    "comment does not terminate."@
}

/// The bytes of a marker.
pub open spec fn marker_bytes(m: String) -> Seq<u8> {
    encode_utf8(m@)
}

/// A marker takes part in discovery only when it is non-empty and free of the
/// filler byte; any other marker matches nothing.
pub open spec fn usable(m: Seq<u8>) -> bool {
    m.len() > 0 && !m.contains(FILLER)
}

pub open spec fn matches_at(w: Seq<u8>, m: Seq<u8>, p: int) -> bool {
    0 <= p && p + m.len() <= w.len() && w.subrange(p, p + m.len()) == m
}

/// The first offset at or after `from` where `m` occurs in `w`.
pub open spec fn first_match(w: Seq<u8>, m: Seq<u8>, from: int) -> Option<int>
    decreases w.len() - from,
{
    if from < 0 || from >= w.len() || from + m.len() > w.len() {
        None
    } else if matches_at(w, m, from) {
        Some(from)
    } else {
        first_match(w, m, from + 1)
    }
}

/// The first LF at or after `k`, or the end of `w`.
pub open spec fn next_newline(w: Seq<u8>, k: int) -> int
    decreases w.len() - k,
{
    if k < 0 || k >= w.len() || w[k] == 10u8 {
        k
    } else {
        next_newline(w, k + 1)
    }
}

/// `w` with the range `[p, q)` overwritten by the filler byte.
pub open spec fn blank(w: Seq<u8>, p: int, q: int) -> Seq<u8> {
    Seq::new(w.len(), |k: int| if p <= k < q { FILLER } else { w[k] })
}

/// Line-comment discovery for one marker from offset `from` on: the working
/// copy afterwards and the spans found, in order. A span runs from the marker
/// to and including the next LF, or to the end.
pub open spec fn line_spans(w: Seq<u8>, m: Seq<u8>, from: int) -> (Seq<u8>, Seq<(int, int)>)
    decreases w.len() - from,
{
    if !usable(m) || from < 0 || from > w.len() {
        (w, seq![])
    } else {
        match first_match(w, m, from) {
            None => (w, seq![]),
            Some(p) => {
                let n = next_newline(w, p + 1);
                let q = if n < w.len() { n + 1 } else { n };
                if q <= from || q > w.len() {
                    (w, seq![])
                } else {
                    let r = line_spans(blank(w, p, q), m, q);
                    (r.0, seq![(p, q)] + r.1)
                }
            },
        }
    }
}

/// Block-comment discovery for one marker pair from offset `from` on: the
/// working copy afterwards, the spans found, and the start of a comment that
/// does not terminate, which ends discovery for this pair.
pub open spec fn block_spans(w: Seq<u8>, st: Seq<u8>, en: Seq<u8>, from: int) -> (
    Seq<u8>,
    Seq<(int, int)>,
    Option<int>,
)
    decreases w.len() - from,
{
    if !usable(st) || !usable(en) || from < 0 || from > w.len() {
        (w, seq![], None)
    } else {
        match first_match(w, st, from) {
            None => (w, seq![], None),
            Some(p) => match first_match(w, en, p + st.len()) {
                None => (w, seq![], Some(p)),
                Some(e) => {
                    let q = e + en.len();
                    if q <= from || q > w.len() {
                        (w, seq![], None)
                    } else {
                        let r = block_spans(blank(w, p, q), st, en, q);
                        (r.0, seq![(p, q)] + r.1, r.2)
                    }
                },
            },
        }
    }
}

/// Discovery for the first `k` line markers.
pub open spec fn lines_upto(w0: Seq<u8>, ms: Seq<String>, k: int) -> (Seq<u8>, Seq<(int, int)>)
    decreases k,
{
    if k <= 0 {
        (w0, seq![])
    } else {
        let a = lines_upto(w0, ms, k - 1);
        let b = line_spans(a.0, marker_bytes(ms[k - 1]), 0);
        (b.0, a.1 + b.1)
    }
}

/// Discovery for the first `k` block-marker pairs.
pub open spec fn blocks_upto(w0: Seq<u8>, ps: Seq<LongCommentActivation>, k: int) -> (
    Seq<u8>,
    Seq<(int, int)>,
    Seq<int>,
)
    decreases k,
{
    if k <= 0 {
        (w0, seq![], seq![])
    } else {
        let a = blocks_upto(w0, ps, k - 1);
        let b = block_spans(a.0, marker_bytes(ps[k - 1].start), marker_bytes(ps[k - 1].end), 0);
        (
            b.0,
            a.1 + b.1,
            match b.2 {
                Some(p) => a.2.push(p),
                None => a.2,
            },
        )
    }
}

/// The end of the first span in `spans[k..]` that starts at `i` and fits in `len`.
pub open spec fn span_end_at(spans: Seq<(int, int)>, k: int, i: int, len: int) -> Option<int>
    decreases spans.len() - k,
{
    if k < 0 || k >= spans.len() {
        None
    } else if spans[k].0 == i && i < spans[k].1 <= len {
        Some(spans[k].1)
    } else {
        span_end_at(spans, k + 1, i, len)
    }
}

pub open spec fn is_quote(b: u8) -> bool {
    b == 34u8 || b == 39u8
}

/// The output from offset `i` on: a span that starts outside a literal turns
/// into filler bytes; every other byte is copied, and an unescaped quote
/// (one whose previous byte is no backslash) toggles the literal state.
pub open spec fn assemble(s: Seq<u8>, spans: Seq<(int, int)>, i: int, in_lit: bool, prev: u8) -> Seq<u8>
    decreases s.len() - i,
{
    if i < 0 || i >= s.len() {
        seq![]
    } else {
        match span_end_at(spans, 0, i, s.len() as int) {
            Some(e) if !in_lit && i < e <= s.len() => Seq::new((e - i) as nat, |_k: int| FILLER)
                + assemble(s, spans, e, in_lit, FILLER),
            _ => {
                let c = s[i];
                let flip = is_quote(c) && prev != 92u8;
                seq![c] + assemble(s, spans, i + 1, if flip { !in_lit } else { in_lit }, c)
            },
        }
    }
}

pub open spec fn as_ints(v: Seq<(usize, usize)>) -> Seq<(int, int)> {
    v.map_values(|x: (usize, usize)| (x.0 as int, x.1 as int))
}

impl Preprocessor {
    /// All spans found in the CRLF-normalized text `s`, and the offsets of
    /// block comments that do not terminate.
    pub open spec fn discover(&self, s: Seq<u8>) -> (Seq<(int, int)>, Seq<int>) {
        let l = lines_upto(s, self.line_comment_activators@, self.line_comment_activators@.len() as int);
        let b = blocks_upto(l.0, self.long_comment_activators@, self.long_comment_activators@.len() as int);
        (l.1 + b.1, b.2)
    }

    /// What `process` returns for `raw`.
    pub open spec fn output_of(&self, raw: Seq<u8>) -> Seq<u8> {
        let s = normalize_newlines(raw);
        assemble(s, self.discover(s).0, 0, false, 0u8)
    }
}

fn match_at(w: &Vec<u8>, m: &[u8], p: usize) -> (r: bool)
    requires
        p + m@.len() <= w@.len(),
    ensures
        r == matches_at(w@, m@, p as int),
{
    let mut t: usize = 0;
    while t < m.len()
        invariant
            t <= m@.len(),
            p + m@.len() <= w@.len(),
            w@.subrange(p as int, p + t) =~= m@.subrange(0, t as int),
        decreases m@.len() - t,
    {
        assert(p + t < w@.len() == w.len());
        if w[p + t] != m[t] {
            proof {
                assert(w@.subrange(p as int, p + m@.len())[t as int] != m@[t as int]);
            }
            return false;
        }
        t = t + 1;
        proof {
            assert(w@.subrange(p as int, p + t) =~= m@.subrange(0, t as int));
        }
    }
    proof {
        assert(m@.subrange(0, m@.len() as int) =~= m@);
    }
    true
}

fn find_from(w: &Vec<u8>, m: &[u8], from: usize) -> (r: Option<usize>)
    ensures
        match r {
            Some(p) => first_match(w@, m@, from as int) == Some(p as int) && from <= p && p
                + m@.len() <= w@.len(),
            None => first_match(w@, m@, from as int) is None,
        },
{
    let mut j: usize = from;
    while j < w.len() && m.len() <= w.len() - j
        invariant
            from <= j,
            first_match(w@, m@, j as int) == first_match(w@, m@, from as int),
        decreases w@.len() - j,
    {
        if match_at(w, m, j) {
            return Some(j);
        }
        j = j + 1;
    }
    None
}

fn newline_from(w: &Vec<u8>, k: usize) -> (r: usize)
    requires
        k <= w@.len(),
    ensures
        r == next_newline(w@, k as int),
        k <= r <= w@.len(),
{
    let mut j: usize = k;
    while j < w.len() && w[j] != 10u8
        invariant
            k <= j <= w@.len(),
            next_newline(w@, j as int) == next_newline(w@, k as int),
        decreases w@.len() - j,
    {
        j = j + 1;
    }
    j
}

fn blank_range(w: &mut Vec<u8>, p: usize, q: usize)
    requires
        p <= q <= old(w)@.len(),
    ensures
        final(w)@ == blank(old(w)@, p as int, q as int),
{
    let mut k: usize = p;
    while k < q
        invariant
            p <= k <= q <= w@.len(),
            w@.len() == old(w)@.len(),
            forall|t: int| 0 <= t < w@.len() ==> #[trigger] w@[t] == if p <= t < k {
                FILLER
            } else {
                old(w)@[t]
            },
        decreases q - k,
    {
        w.set(k, FILLER);
        k = k + 1;
    }
    proof {
        assert(w@ =~= blank(old(w)@, p as int, q as int));
    }
}

fn is_usable(m: &[u8]) -> (r: bool)
    ensures
        r == usable(m@),
{
    if m.len() == 0 {
        return false;
    }
    let mut k: usize = 0;
    while k < m.len()
        invariant
            k <= m@.len(),
            forall|t: int| 0 <= t < k ==> m@[t] != FILLER,
        decreases m@.len() - k,
    {
        if m[k] == FILLER {
            proof {
                assert(m@.contains(FILLER));
            }
            return false;
        }
        k = k + 1;
    }
    true
}

fn discover_line(w: &mut Vec<u8>, m: &[u8], spans: &mut Vec<(usize, usize)>)
    ensures
        final(w)@ == line_spans(old(w)@, m@, 0).0,
        final(w)@.len() == old(w)@.len(),
        as_ints(final(spans)@) == as_ints(old(spans)@) + line_spans(old(w)@, m@, 0).1,
{
    let ghost w0 = w@;
    let ghost s0 = spans@;
    if !is_usable(m) {
        proof {
            assert(as_ints(s0) + seq![] =~= as_ints(s0));
        }
        return;
    }
    let mut from: usize = 0;
    proof {
        assert(as_ints(spans@) + line_spans(w@, m@, 0).1 =~= as_ints(s0) + line_spans(w0, m@, 0).1);
    }
    loop
        invariant
            usable(m@),
            w0 == old(w)@,
            s0 == old(spans)@,
            from <= w@.len(),
            w@.len() == w0.len(),
            line_spans(w@, m@, from as int).0 == line_spans(w0, m@, 0).0,
            as_ints(spans@) + line_spans(w@, m@, from as int).1 == as_ints(s0) + line_spans(
                w0,
                m@,
                0,
            ).1,
        decreases w@.len() - from,
    {
        match find_from(w, m, from) {
            None => {
                proof {
                    assert(as_ints(spans@) + seq![] =~= as_ints(spans@));
                    assert(line_spans(w@, m@, from as int).0 == w@);
                }
                return;
            },
            Some(p) => {
                assert(p + 1 <= w@.len() == w.len());
                let n = newline_from(w, p + 1);
                let q = if n < w.len() {
                    n + 1
                } else {
                    n
                };
                let ghost done = as_ints(spans@);
                spans.push((p, q));
                blank_range(w, p, q);
                proof {
                    assert(as_ints(spans@) =~= done.push((p as int, q as int)));
                    let r = line_spans(w@, m@, q as int);
                    assert(done.push((p as int, q as int)) + r.1 =~= done + (seq![
                        (p as int, q as int),
                    ] + r.1));
                }
                from = q;
            },
        }
    }
}

fn discover_block(w: &mut Vec<u8>, st: &[u8], en: &[u8], spans: &mut Vec<(usize, usize)>) -> (r:
    Option<usize>)
    ensures
        final(w)@ == block_spans(old(w)@, st@, en@, 0).0,
        final(w)@.len() == old(w)@.len(),
        as_ints(final(spans)@) == as_ints(old(spans)@) + block_spans(old(w)@, st@, en@, 0).1,
        match r {
            Some(p) => block_spans(old(w)@, st@, en@, 0).2 == Some(p as int) && p <= old(w)@.len(),
            None => block_spans(old(w)@, st@, en@, 0).2 is None,
        },
{
    let ghost w0 = w@;
    let ghost s0 = spans@;
    if !is_usable(st) || !is_usable(en) {
        proof {
            assert(as_ints(s0) + seq![] =~= as_ints(s0));
        }
        return None;
    }
    let mut from: usize = 0;
    proof {
        assert(as_ints(spans@) + block_spans(w@, st@, en@, 0).1 =~= as_ints(s0) + block_spans(
            w0,
            st@,
            en@,
            0,
        ).1);
    }
    loop
        invariant
            usable(st@),
            usable(en@),
            w0 == old(w)@,
            s0 == old(spans)@,
            from <= w@.len(),
            w@.len() == w0.len(),
            block_spans(w@, st@, en@, from as int).0 == block_spans(w0, st@, en@, 0).0,
            block_spans(w@, st@, en@, from as int).2 == block_spans(w0, st@, en@, 0).2,
            as_ints(spans@) + block_spans(w@, st@, en@, from as int).1 == as_ints(s0)
                + block_spans(w0, st@, en@, 0).1,
        decreases w@.len() - from,
    {
        match find_from(w, st, from) {
            None => {
                proof {
                    assert(as_ints(spans@) + seq![] =~= as_ints(spans@));
                    assert(block_spans(w@, st@, en@, from as int).0 == w@);
                }
                return None;
            },
            Some(p) => {
                assert(p + st@.len() <= w@.len() == w.len());
                match find_from(w, en, p + st.len()) {
                    None => {
                        proof {
                            assert(as_ints(spans@) + seq![] =~= as_ints(spans@));
                        }
                        return Some(p);
                    },
                    Some(e) => {
                        assert(e + en@.len() <= w@.len() == w.len());
                        let q = e + en.len();
                        let ghost done = as_ints(spans@);
                        spans.push((p, q));
                        blank_range(w, p, q);
                        proof {
                            assert(as_ints(spans@) =~= done.push((p as int, q as int)));
                            let r = block_spans(w@, st@, en@, q as int);
                            assert(done.push((p as int, q as int)) + r.1 =~= done + (seq![
                                (p as int, q as int),
                            ] + r.1));
                        }
                        from = q;
                    },
                }
            },
        }
    }
}

fn find_span_end(spans: &Vec<(usize, usize)>, i: usize, len: usize) -> (r: Option<usize>)
    ensures
        match r {
            Some(e) => span_end_at(as_ints(spans@), 0, i as int, len as int) == Some(e as int) && i
                < e <= len,
            None => span_end_at(as_ints(spans@), 0, i as int, len as int) is None,
        },
{
    let mut k: usize = 0;
    while k < spans.len()
        invariant
            k <= spans@.len(),
            span_end_at(as_ints(spans@), k as int, i as int, len as int) == span_end_at(
                as_ints(spans@),
                0,
                i as int,
                len as int,
            ),
        decreases spans@.len() - k,
    {
        let (a, b) = spans[k];
        if a == i && i < b && b <= len {
            return Some(b);
        }
        k = k + 1;
    }
    None
}

fn assemble_output(s: &Vec<u8>, spans: &Vec<(usize, usize)>) -> (out: Vec<u8>)
    ensures
        out@ == assemble(s@, as_ints(spans@), 0, false, 0u8),
{
    let ghost sp = as_ints(spans@);
    let mut out: Vec<u8> = Vec::new();
    let mut i: usize = 0;
    let mut in_lit = false;
    let mut prev: u8 = 0;
    proof {
        assert(out@ + assemble(s@, sp, 0, false, 0u8) =~= assemble(s@, sp, 0, false, 0u8));
    }
    while i < s.len()
        invariant
            sp == as_ints(spans@),
            i <= s@.len(),
            out@ + assemble(s@, sp, i as int, in_lit, prev) == assemble(s@, sp, 0, false, 0u8),
        decreases s@.len() - i,
    {
        let ghost out0 = out@;
        let end = if in_lit {
            None
        } else {
            find_span_end(spans, i, s.len())
        };
        match end {
            Some(e) => {
                let mut t: usize = i;
                while t < e
                    invariant
                        i <= t <= e,
                        out@ =~= out0 + Seq::new((t - i) as nat, |_k: int| FILLER),
                    decreases e - t,
                {
                    out.push(FILLER);
                    t = t + 1;
                    proof {
                        assert(out@ =~= out0 + Seq::new((t - i) as nat, |_k: int| FILLER));
                    }
                }
                proof {
                    let f = Seq::new((e - i) as nat, |_k: int| FILLER);
                    assert(out0 + f + assemble(s@, sp, e as int, in_lit, FILLER) =~= out0 + (f
                        + assemble(s@, sp, e as int, in_lit, FILLER)));
                }
                i = e;
                prev = FILLER;
            },
            None => {
                let c = s[i];
                let flip = (c == 34u8 || c == 39u8) && prev != 92u8;
                let next_lit = if flip {
                    !in_lit
                } else {
                    in_lit
                };
                out.push(c);
                proof {
                    assert(out0.push(c) + assemble(s@, sp, i + 1, next_lit, c) =~= out0 + (seq![c]
                        + assemble(s@, sp, i + 1, next_lit, c)));
                }
                i = i + 1;
                in_lit = next_lit;
                prev = c;
            },
        }
    }
    proof {
        assert(out@ + seq![] =~= out@);
    }
    out
}

/// The assembled output from offset `i` has one byte for each byte of `s` from `i` on.
pub proof fn lemma_assemble_len(s: Seq<u8>, spans: Seq<(int, int)>, i: int, in_lit: bool, prev: u8)
    requires
        0 <= i <= s.len(),
    ensures
        assemble(s, spans, i, in_lit, prev).len() == s.len() - i,
    decreases s.len() - i,
{
    if i < s.len() {
        match span_end_at(spans, 0, i, s.len() as int) {
            Some(e) if !in_lit && i < e <= s.len() => {
                lemma_assemble_len(s, spans, e, in_lit, FILLER);
            },
            _ => {
                let c = s[i];
                let flip = is_quote(c) && prev != 92u8;
                lemma_assemble_len(s, spans, i + 1, if flip { !in_lit } else { in_lit }, c);
            },
        }
    }
}

/// Preprocessing keeps the length of the CRLF-normalized input.
pub proof fn lemma_length_preserved(p: &Preprocessor, raw: Seq<u8>)
    ensures
        p.output_of(raw).len() == normalize_newlines(raw).len(),
{
    let s = normalize_newlines(raw);
    lemma_assemble_len(s, p.discover(s).0, 0, false, 0u8);
}

impl PreprocessorError {
    /// `preprocessor[<line>, <column>]: error: <message>`.
    pub fn describe(&self) -> (r: String)
        ensures
            r@ == "preprocessor["@ + decimal(self.pos.line as nat) + ", "@ + decimal(self.pos.column as nat)
                + "]: error: "@ + self.what@,
    {
        let mut out = String::from_str("preprocessor[");
        push_decimal(&mut out, self.pos.line);
        out.append(", ");
        push_decimal(&mut out, self.pos.column);
        out.append("]: error: ");
        out.append(self.what.as_str());
        out
    }

    pub fn position(&self) -> (r: Position)
        ensures
            r == self.pos,
    {
        self.pos
    }

    pub fn message(&self) -> (r: String)
        ensures
            r@ == self.what@,
    {
        self.what.clone()
    }
}

impl Preprocessor {
    pub fn create(
        line_comment_activators: Vec<String>,
        long_comment_activators: Vec<LongCommentActivation>,
    ) -> (r: Self)
        ensures
            r.line_comment_activators@ == line_comment_activators@,
            r.long_comment_activators@ == long_comment_activators@,
    {
        Preprocessor { line_comment_activators, long_comment_activators }
    }

    /// Blanks the comments of `raw_data` (after CRLF normalization) with the
    /// filler byte. Each block comment that does not terminate adds one error,
    /// at its start, to `pre_errors`.
    pub fn process(&self, raw_data: &Vec<u8>, pre_errors: &mut Vec<PreprocessorError>) -> (out:
        Vec<u8>)
        ensures
            out@ == self.output_of(raw_data@),
            out@.len() == normalize_newlines(raw_data@).len(),
            final(pre_errors)@.len() == old(pre_errors)@.len() + self.discover(
                normalize_newlines(raw_data@),
            ).1.len(),
            final(pre_errors)@.take(old(pre_errors)@.len() as int) == old(pre_errors)@,
            forall|k: int|
                0 <= k < self.discover(normalize_newlines(raw_data@)).1.len() ==> {
                    &&& #[trigger] final(pre_errors)@[old(pre_errors)@.len() + k].pos
                        == position_of(
                        normalize_newlines(raw_data@),
                        self.discover(normalize_newlines(raw_data@)).1[k],
                    )
                    &&& final(pre_errors)@[old(pre_errors)@.len() + k].what@
                        == unterminated_comment_message()
                },
    {
        let s = replace_pair_bytes(raw_data, 13u8, 10u8, 10u8);
        let ghost ms = self.line_comment_activators@;
        let ghost ps = self.long_comment_activators@;
        let mut w = copy_bytes(&s);
        let mut spans: Vec<(usize, usize)> = Vec::new();
        let mut k: usize = 0;
        proof {
            assert(as_ints(spans@) =~= seq![]);
        }
        while k < self.line_comment_activators.len()
            invariant
                ms == self.line_comment_activators@,
                k <= ms.len(),
                w@ == lines_upto(s@, ms, k as int).0,
                w@.len() == s@.len(),
                as_ints(spans@) == lines_upto(s@, ms, k as int).1,
            decreases ms.len() - k,
        {
            let m = self.line_comment_activators[k].as_str().as_bytes();
            discover_line(&mut w, m, &mut spans);
            k = k + 1;
        }
        let ghost l = lines_upto(s@, ms, ms.len() as int);
        let ghost n0 = old(pre_errors)@.len();
        let mut k: usize = 0;
        proof {
            assert(l.1 + seq![] =~= l.1);
            assert(pre_errors@.take(n0 as int) =~= old(pre_errors)@);
        }
        while k < self.long_comment_activators.len()
            invariant
                ms == self.line_comment_activators@,
                ps == self.long_comment_activators@,
                l == lines_upto(s@, ms, ms.len() as int),
                n0 == old(pre_errors)@.len(),
                k <= ps.len(),
                w@ == blocks_upto(l.0, ps, k as int).0,
                w@.len() == s@.len(),
                as_ints(spans@) == l.1 + blocks_upto(l.0, ps, k as int).1,
                pre_errors@.len() == n0 + blocks_upto(l.0, ps, k as int).2.len(),
                pre_errors@.take(n0 as int) == old(pre_errors)@,
                forall|t: int|
                    0 <= t < blocks_upto(l.0, ps, k as int).2.len() ==> {
                        &&& #[trigger] pre_errors@[n0 + t].pos == position_of(
                            s@,
                            blocks_upto(l.0, ps, k as int).2[t],
                        )
                        &&& pre_errors@[n0 + t].what@ == unterminated_comment_message()
                    },
            decreases ps.len() - k,
        {
            let pair = &self.long_comment_activators[k];
            let st = pair.start.as_str().as_bytes();
            let en = pair.end.as_str().as_bytes();
            let ghost before = spans@;
            let ghost errs0 = pre_errors@;
            let found = discover_block(&mut w, st, en, &mut spans);
            proof {
                assert(as_ints(spans@) =~= l.1 + blocks_upto(l.0, ps, k + 1).1);
            }
            match found {
                Some(p) => {
                    let what = String::from_str("comment does not terminate.");
                    let pos = position_at(&s, p);
                    pre_errors.push(PreprocessorError { pos, what });
                    proof {
                        assert(pre_errors@.take(n0 as int) =~= errs0.take(n0 as int));
                    }
                },
                None => {},
            }
            k = k + 1;
        }
        let out = assemble_output(&s, &spans);
        proof {
            lemma_length_preserved(self, raw_data@);
        }
        out
    }
}

/// A copy of `s`.
fn copy_bytes(s: &Vec<u8>) -> (r: Vec<u8>)
    ensures
        r@ == s@,
{
    let mut r: Vec<u8> = Vec::new();
    let mut k: usize = 0;
    while k < s.len()
        invariant
            k <= s@.len(),
            r@ =~= s@.subrange(0, k as int),
        decreases s@.len() - k,
    {
        r.push(s[k]);
        k = k + 1;
        proof {
            assert(r@ =~= s@.subrange(0, k as int));
        }
    }
    proof {
        assert(s@.subrange(0, s@.len() as int) =~= s@);
    }
    r
}

/// With no spans, assembly copies the text from `i` on.
proof fn lemma_assemble_no_spans(s: Seq<u8>, i: int, in_lit: bool, prev: u8)
    requires
        0 <= i <= s.len(),
    ensures
        assemble(s, seq![], i, in_lit, prev) == s.skip(i),
    decreases s.len() - i,
{
    if i < s.len() {
        let c = s[i];
        let flip = is_quote(c) && prev != 92u8;
        let nl = if flip { !in_lit } else { in_lit };
        lemma_assemble_no_spans(s, i + 1, nl, c);
        assert(seq![c] + s.skip(i + 1) =~= s.skip(i));
    } else {
        assert(s.skip(i) =~= Seq::<u8>::empty());
    }
}

proof fn lemma_lines_none(s: Seq<u8>, ms: Seq<String>, k: int)
    requires
        0 <= k <= ms.len(),
        forall|t: int| 0 <= t < ms.len() ==> first_match(s, #[trigger] marker_bytes(ms[t]), 0) is None,
    ensures
        lines_upto(s, ms, k) == (s, Seq::<(int, int)>::empty()),
    decreases k,
{
    if k > 0 {
        lemma_lines_none(s, ms, k - 1);
        assert(marker_bytes(ms[k - 1]) == marker_bytes(ms[k - 1]));
        assert(Seq::<(int, int)>::empty() + seq![] =~= Seq::<(int, int)>::empty());
    }
}

proof fn lemma_blocks_none(s: Seq<u8>, ps: Seq<LongCommentActivation>, k: int)
    requires
        0 <= k <= ps.len(),
        forall|t: int|
            0 <= t < ps.len() ==> first_match(s, #[trigger] marker_bytes(ps[t].start), 0) is None,
    ensures
        blocks_upto(s, ps, k) == (s, Seq::<(int, int)>::empty(), Seq::<int>::empty()),
    decreases k,
{
    if k > 0 {
        lemma_blocks_none(s, ps, k - 1);
        assert(marker_bytes(ps[k - 1].start) == marker_bytes(ps[k - 1].start));
        assert(Seq::<(int, int)>::empty() + seq![] =~= Seq::<(int, int)>::empty());
    }
}

/// Text in which no line marker and no block start occurs, and in which no
/// CR LF pair stands, passes through preprocessing unchanged and without errors.
pub proof fn lemma_unmarked_text_is_fixed_point(p: &Preprocessor, raw: Seq<u8>)
    requires
        forall|k: int| 0 <= k < raw.len() - 1 ==> !(#[trigger] raw[k] == 13u8 && raw[k + 1] == 10u8),
        forall|t: int|
            0 <= t < p.line_comment_activators@.len() ==> first_match(
                raw,
                #[trigger] marker_bytes(p.line_comment_activators@[t]),
                0,
            ) is None,
        forall|t: int|
            0 <= t < p.long_comment_activators@.len() ==> first_match(
                raw,
                #[trigger] marker_bytes(p.long_comment_activators@[t].start),
                0,
            ) is None,
    ensures
        p.output_of(raw) == raw,
        p.discover(normalize_newlines(raw)).1.len() == 0,
{
    lemma_replace_pair_identity(raw, 13u8, 10u8, 10u8);
    let ms = p.line_comment_activators@;
    let ps = p.long_comment_activators@;
    lemma_lines_none(raw, ms, ms.len() as int);
    lemma_blocks_none(raw, ps, ps.len() as int);
    assert(p.discover(raw).0 =~= Seq::<(int, int)>::empty());
    lemma_assemble_no_spans(raw, 0, false, 0u8);
    assert(raw.skip(0) =~= raw);
}

/// `a` is `b` with some bytes overwritten by the filler byte.
pub open spec fn refines(a: Seq<u8>, b: Seq<u8>) -> bool {
    a.len() == b.len() && forall|j: int| 0 <= j < a.len() ==> #[trigger] a[j] == b[j] || a[j] == FILLER
}

proof fn lemma_refines_match(a: Seq<u8>, b: Seq<u8>, m: Seq<u8>, k: int)
    requires
        refines(a, b),
        usable(m),
        matches_at(a, m, k),
    ensures
        matches_at(b, m, k),
{
    assert forall|t: int| 0 <= t < m.len() implies b.subrange(k, k + m.len())[t] == m[t] by {
        assert(a.subrange(k, k + m.len())[t] == m[t]);
        if m[t] == FILLER {
            assert(m.contains(FILLER));
        }
        assert(a[k + t] == b[k + t] || a[k + t] == FILLER);
    }
    assert(b.subrange(k, k + m.len()) =~= m);
}

proof fn lemma_first_match_matches(w: Seq<u8>, m: Seq<u8>, from: int)
    ensures
        first_match(w, m, from) matches Some(p) ==> matches_at(w, m, p),
    decreases w.len() - from,
{
    if !(from < 0 || from >= w.len() || from + m.len() > w.len()) && !matches_at(w, m, from) {
        lemma_first_match_matches(w, m, from + 1);
    }
}

proof fn lemma_blank_refines(w: Seq<u8>, p: int, q: int)
    ensures
        refines(blank(w, p, q), w),
{
}

proof fn lemma_refines_trans(a: Seq<u8>, b: Seq<u8>, c: Seq<u8>)
    requires
        refines(a, b),
        refines(b, c),
    ensures
        refines(a, c),
{
    assert forall|j: int| 0 <= j < a.len() implies #[trigger] a[j] == c[j] || a[j] == FILLER by {
        assert(b[j] == c[j] || b[j] == FILLER);
    }
}

/// Spans of one line marker start where the marker occurs, so none before `n`
/// when it occurs nowhere before `n`.
proof fn lemma_line_spans_late(w: Seq<u8>, m: Seq<u8>, from: int, n: int)
    requires
        usable(m) ==> forall|k: int| 0 <= k < n ==> !#[trigger] matches_at(w, m, k),
    ensures
        refines(line_spans(w, m, from).0, w),
        forall|t: int|
            0 <= t < line_spans(w, m, from).1.len() ==> #[trigger] line_spans(w, m, from).1[t].0
                >= n,
    decreases w.len() - from,
{
    if usable(m) && 0 <= from <= w.len() {
        lemma_first_match_matches(w, m, from);
        match first_match(w, m, from) {
            Some(p) => {
                let nl = next_newline(w, p + 1);
                let q = if nl < w.len() { nl + 1 } else { nl };
                if !(q <= from || q > w.len()) {
                    let b = blank(w, p, q);
                    lemma_blank_refines(w, p, q);
                    assert forall|k: int| 0 <= k < n implies !#[trigger] matches_at(b, m, k) by {
                        if matches_at(b, m, k) {
                            lemma_refines_match(b, w, m, k);
                        }
                    }
                    lemma_line_spans_late(b, m, q, n);
                    let r = line_spans(b, m, q);
                    lemma_refines_trans(r.0, b, w);
                    let all = seq![(p, q)] + r.1;
                    assert forall|t: int| 0 <= t < all.len() implies #[trigger] all[t].0 >= n by {
                        if t > 0 {
                            assert(all[t] == r.1[t - 1]);
                        }
                    }
                }
            },
            None => {},
        }
    }
}

proof fn lemma_block_spans_late(w: Seq<u8>, st: Seq<u8>, en: Seq<u8>, from: int, n: int)
    requires
        usable(st) ==> forall|k: int| 0 <= k < n ==> !#[trigger] matches_at(w, st, k),
    ensures
        refines(block_spans(w, st, en, from).0, w),
        forall|t: int|
            0 <= t < block_spans(w, st, en, from).1.len() ==> #[trigger] block_spans(
                w,
                st,
                en,
                from,
            ).1[t].0 >= n,
    decreases w.len() - from,
{
    if usable(st) && usable(en) && 0 <= from <= w.len() {
        lemma_first_match_matches(w, st, from);
        match first_match(w, st, from) {
            Some(p) => match first_match(w, en, p + st.len()) {
                Some(e) => {
                    let q = e + en.len();
                    if !(q <= from || q > w.len()) {
                        let b = blank(w, p, q);
                        lemma_blank_refines(w, p, q);
                        assert forall|k: int| 0 <= k < n implies !#[trigger] matches_at(b, st, k) by {
                            if matches_at(b, st, k) {
                                lemma_refines_match(b, w, st, k);
                            }
                        }
                        lemma_block_spans_late(b, st, en, q, n);
                        let r = block_spans(b, st, en, q);
                        lemma_refines_trans(r.0, b, w);
                        let all = seq![(p, q)] + r.1;
                        assert forall|t: int| 0 <= t < all.len() implies #[trigger] all[t].0
                            >= n by {
                            if t > 0 {
                                assert(all[t] == r.1[t - 1]);
                            }
                        }
                    }
                },
                None => {},
            },
            None => {},
        }
    }
}

/// No line marker occurs in `s` before offset `n`.
pub open spec fn no_line_marker_before(s: Seq<u8>, ms: Seq<String>, n: int) -> bool {
    forall|t: int, k: int|
        0 <= t < ms.len() && 0 <= k < n ==> !#[trigger] matches_at(s, marker_bytes(ms[t]), k)
}

/// No block start marker occurs in `s` before offset `n`.
pub open spec fn no_block_start_before(s: Seq<u8>, ps: Seq<LongCommentActivation>, n: int) -> bool {
    forall|t: int, k: int|
        0 <= t < ps.len() && 0 <= k < n ==> !#[trigger] matches_at(s, marker_bytes(ps[t].start), k)
}

pub open spec fn starts_from(spans: Seq<(int, int)>, n: int) -> bool {
    forall|t: int| 0 <= t < spans.len() ==> #[trigger] spans[t].0 >= n
}

proof fn lemma_lines_late(w0: Seq<u8>, ms: Seq<String>, k: int, n: int)
    requires
        0 <= k <= ms.len(),
        no_line_marker_before(w0, ms, n),
    ensures
        refines(lines_upto(w0, ms, k).0, w0),
        starts_from(lines_upto(w0, ms, k).1, n),
    decreases k,
{
    if k <= 0 {
        assert forall|j: int| 0 <= j < w0.len() implies #[trigger] w0[j] == w0[j] || w0[j]
            == FILLER by {}
    } else {
        lemma_lines_late(w0, ms, k - 1, n);
        let a = lines_upto(w0, ms, k - 1);
        let m = marker_bytes(ms[k - 1]);
        assert forall|j: int| usable(m) && 0 <= j < n implies !#[trigger] matches_at(a.0, m, j) by {
            if matches_at(a.0, m, j) {
                lemma_refines_match(a.0, w0, m, j);
                assert(!matches_at(w0, marker_bytes(ms[k - 1]), j));
            }
        }
        lemma_line_spans_late(a.0, m, 0, n);
        let b = line_spans(a.0, m, 0);
        lemma_refines_trans(b.0, a.0, w0);
        let all = a.1 + b.1;
        assert forall|t: int| 0 <= t < all.len() implies #[trigger] all[t].0 >= n by {
            if t >= a.1.len() {
                assert(all[t] == b.1[t - a.1.len()]);
            }
        }
    }
}

proof fn lemma_blocks_late(w0: Seq<u8>, s: Seq<u8>, ps: Seq<LongCommentActivation>, k: int, n: int)
    requires
        0 <= k <= ps.len(),
        refines(w0, s),
        no_block_start_before(s, ps, n),
    ensures
        starts_from(blocks_upto(w0, ps, k).1, n),
        refines(blocks_upto(w0, ps, k).0, s),
    decreases k,
{
    if k > 0 {
        lemma_blocks_late(w0, s, ps, k - 1, n);
        let a = blocks_upto(w0, ps, k - 1);
        let st = marker_bytes(ps[k - 1].start);
        let en = marker_bytes(ps[k - 1].end);
        assert forall|j: int| usable(st) && 0 <= j < n implies !#[trigger] matches_at(a.0, st, j) by {
            if matches_at(a.0, st, j) {
                lemma_refines_match(a.0, s, st, j);
                assert(!matches_at(s, marker_bytes(ps[k - 1].start), j));
            }
        }
        lemma_block_spans_late(a.0, st, en, 0, n);
        let b = block_spans(a.0, st, en, 0);
        lemma_refines_trans(b.0, a.0, s);
        let all = a.1 + b.1;
        assert forall|t: int| 0 <= t < all.len() implies #[trigger] all[t].0 >= n by {
            if t >= a.1.len() {
                assert(all[t] == b.1[t - a.1.len()]);
            }
        }
    }
}

proof fn lemma_span_end_none(spans: Seq<(int, int)>, k: int, i: int, len: int)
    requires
        forall|t: int| 0 <= t < spans.len() ==> #[trigger] spans[t].0 > i,
    ensures
        span_end_at(spans, k, i, len) is None,
    decreases spans.len() - k,
{
    if 0 <= k < spans.len() {
        lemma_span_end_none(spans, k + 1, i, len);
    }
}

/// Outside any literal and before every span, bytes are copied unchanged.
proof fn lemma_assemble_plain(s: Seq<u8>, spans: Seq<(int, int)>, i: int, n: int, prev: u8)
    requires
        0 <= i <= n < s.len(),
        starts_from(spans, n + 1),
        forall|t: int| i <= t < n ==> !is_quote(#[trigger] s[t]),
    ensures
        assemble(s, spans, i, false, prev) == s.subrange(i, n) + assemble(
            s,
            spans,
            n,
            false,
            if i < n { s[n - 1] } else { prev },
        ),
    decreases n - i,
{
    if i < n {
        lemma_span_end_none(spans, 0, i, s.len() as int);
        lemma_assemble_plain(s, spans, i + 1, n, s[i]);
        assert(seq![s[i]] + s.subrange(i + 1, n) =~= s.subrange(i, n));
    } else {
        assert(s.subrange(i, n) =~= Seq::<u8>::empty());
    }
}

/// Inside a literal, bytes are copied up to and including the closing quote.
proof fn lemma_assemble_literal(s: Seq<u8>, spans: Seq<(int, int)>, i: int, e: int)
    requires
        1 <= i < e <= s.len(),
        forall|t: int| i <= t < e - 1 ==> !is_quote(#[trigger] s[t]),
        s[e - 1] == 34u8,
        s[e - 2] != 92u8,
    ensures
        assemble(s, spans, i, true, s[i - 1]) == s.subrange(i, e) + assemble(
            s,
            spans,
            e,
            false,
            34u8,
        ),
    decreases e - i,
{
    if i < e - 1 {
        lemma_assemble_literal(s, spans, i + 1, e);
    }
    assert(seq![s[i]] + s.subrange(i + 1, e) =~= s.subrange(i, e));
}

/// Comment markers inside a string literal are never treated as comments: a
/// quoted string preceded by quote-free text, before which (and at whose
/// opening quote) no line marker or block start occurs, is copied unchanged.
pub proof fn lemma_literal_protected(
    pp: &Preprocessor,
    raw: Seq<u8>,
    pre: Seq<u8>,
    lit: Seq<u8>,
    post: Seq<u8>,
)
    requires
        normalize_newlines(raw) == pre + lit + post,
        forall|t: int| 0 <= t < pre.len() ==> !is_quote(#[trigger] pre[t]),
        pre.len() > 0 ==> pre.last() != 92u8,
        lit.len() >= 2,
        lit[0] == 34u8,
        lit.last() == 34u8,
        lit[lit.len() - 2] != 92u8,
        forall|t: int| 0 < t < lit.len() - 1 ==> !is_quote(#[trigger] lit[t]),
        no_line_marker_before(normalize_newlines(raw), pp.line_comment_activators@, pre.len() as int + 1),
        no_block_start_before(normalize_newlines(raw), pp.long_comment_activators@, pre.len() as int + 1),
    ensures
        pp.output_of(raw).subrange(pre.len() as int, pre.len() as int + lit.len()) == lit,
{
    let s = normalize_newlines(raw);
    let n = pre.len() as int;
    let e = n + lit.len();
    let ms = pp.line_comment_activators@;
    let ps = pp.long_comment_activators@;
    lemma_lines_late(s, ms, ms.len() as int, n + 1);
    let l = lines_upto(s, ms, ms.len() as int);
    lemma_blocks_late(l.0, s, ps, ps.len() as int, n + 1);
    let spans = pp.discover(s).0;
    assert forall|t: int| 0 <= t < spans.len() implies #[trigger] spans[t].0 >= n + 1 by {
        let b = blocks_upto(l.0, ps, ps.len() as int);
        if t >= l.1.len() {
            assert(spans[t] == b.1[t - l.1.len()]);
        } else {
            assert(spans[t] == l.1[t]);
        }
    }
    assert forall|t: int| 0 <= t < n implies !is_quote(#[trigger] s[t]) by {
        assert(s[t] == pre[t]);
    }
    lemma_assemble_plain(s, spans, 0, n, 0u8);
    let prev = if 0 < n { s[n - 1] } else { 0u8 };
    assert(prev != 92u8) by {
        if 0 < n {
            assert(s[n - 1] == pre.last());
        }
    }
    assert(s[n] == lit[0]);
    lemma_span_end_none(spans, 0, n, s.len() as int);
    assert forall|t: int| n + 1 <= t < e - 1 implies !is_quote(#[trigger] s[t]) by {
        assert(s[t] == lit[t - n]);
    }
    assert(s[e - 1] == lit.last());
    assert(s[e - 2] == lit[lit.len() - 2]);
    lemma_assemble_literal(s, spans, n + 1, e);
    let out = assemble(s, spans, 0, false, 0u8);
    assert(out == s.subrange(0, n) + (seq![s[n]] + (s.subrange(n + 1, e) + assemble(
        s,
        spans,
        e,
        false,
        34u8,
    ))));
    assert(out.subrange(n, e) =~= lit);
}

} // verus!
