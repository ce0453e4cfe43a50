//! Line accumulation for one device: raw bytes go in chunk by chunk, and
//! every completed line comes out decoded, however the chunks were cut.

use crate::text::{barcode_text, decode_line};
use vstd::prelude::*;

verus! {

/// The byte that ends a scanned line.
pub const NEWLINE: u8 = 0x0A;

/// One thing that feeding bytes to an accumulator produced.
#[derive(Debug, PartialEq, Eq)]
pub enum FeedItem {
    /// A complete line, decoded and trimmed, that was not blank.
    Barcode(String),
    /// The pending line outgrew the limit and was thrown away.
    Overflow,
}

/// A [`FeedItem`] as a mathematical value.
#[verifier::ext_equal]
pub enum FeedItemView {
    Barcode(Seq<char>),
    Overflow,
}

impl View for FeedItem {
    type V = FeedItemView;

    open spec fn view(&self) -> FeedItemView {
        match self {
            FeedItem::Barcode(text) => FeedItemView::Barcode(text@),
            FeedItem::Overflow => FeedItemView::Overflow,
        }
    }
}

impl Clone for FeedItem {
    fn clone(&self) -> (copy: Self)
        ensures
            copy == *self,
    {
        match self {
            FeedItem::Barcode(text) => FeedItem::Barcode(text.clone()),
            FeedItem::Overflow => FeedItem::Overflow,
        }
    }
}

/// The items of `items`, each as a mathematical value.
pub open spec fn item_views(items: Seq<FeedItem>) -> Seq<FeedItemView> {
    items.map_values(|item: FeedItem| item@)
}

/// The outcome of feeding bytes: the bytes still waiting for their
/// delimiter, and what was produced, oldest first.
#[verifier::ext_equal]
pub struct Scan {
    pub pending: Seq<u8>,
    pub items: Seq<FeedItemView>,
}

/// What a completed raw line contributes: its barcode, unless it is blank.
pub open spec fn line_items(raw: Seq<u8>) -> Seq<FeedItemView> {
    match barcode_text(raw) {
        Some(text) => seq![FeedItemView::Barcode(text)],
        None => Seq::empty(),
    }
}

/// Feeding a single byte. A delimiter completes the pending line. Any other
/// byte joins the pending line if that keeps it within `limit`; otherwise
/// the pending line and the byte are dropped and an overflow is reported.
pub open spec fn feed_byte(limit: nat, pending: Seq<u8>, byte: u8) -> Scan {
    if byte == NEWLINE {
        Scan { pending: Seq::empty(), items: line_items(pending) }
    } else if pending.len() >= limit {
        Scan { pending: Seq::empty(), items: seq![FeedItemView::Overflow] }
    } else {
        Scan { pending: pending.push(byte), items: Seq::empty() }
    }
}

/// Feeding `bytes` in order, starting with `pending` waiting.
pub open spec fn feed_bytes(limit: nat, pending: Seq<u8>, bytes: Seq<u8>) -> Scan
    decreases bytes.len(),
{
    if bytes.len() == 0 {
        Scan { pending, items: Seq::empty() }
    } else {
        let before = feed_bytes(limit, pending, bytes.drop_last());
        let last = feed_byte(limit, before.pending, bytes.last());
        Scan { pending: last.pending, items: before.items + last.items }
    }
}

/// Feeding `chunks` one after another, starting with `pending` waiting.
pub open spec fn feed_chunks(limit: nat, pending: Seq<u8>, chunks: Seq<Seq<u8>>) -> Scan
    decreases chunks.len(),
{
    if chunks.len() == 0 {
        Scan { pending, items: Seq::empty() }
    } else {
        let before = feed_chunks(limit, pending, chunks.drop_last());
        let last = feed_bytes(limit, before.pending, chunks.last());
        Scan { pending: last.pending, items: before.items + last.items }
    }
}

/// A pending line that an accumulator with this `limit` can hold: within
/// the limit and free of delimiters.
pub open spec fn is_pending_line(limit: nat, pending: Seq<u8>) -> bool {
    pending.len() <= limit && !pending.contains(NEWLINE)
}

/// Feeding keeps the pending line within the limit and free of delimiters.
pub proof fn lemma_feed_keeps_pending_line(limit: nat, pending: Seq<u8>, bytes: Seq<u8>)
    requires
        is_pending_line(limit, pending),
    ensures
        is_pending_line(limit, feed_bytes(limit, pending, bytes).pending),
    decreases bytes.len(),
{
    if bytes.len() > 0 {
        lemma_feed_keeps_pending_line(limit, pending, bytes.drop_last());
        let before = feed_bytes(limit, pending, bytes.drop_last()).pending;
        let byte = bytes.last();
        if byte != NEWLINE && before.len() < limit {
            let after = before.push(byte);
            assert forall|i: int| 0 <= i < after.len() implies after[i] != NEWLINE by {
                if i < before.len() {
                    assert(before.contains(before[i]));
                }
            }
        }
    }
}

/// Chunk boundaries do not matter: feeding `first` and then `second` gives
/// the same pending line and the same items, in the same order, as feeding
/// their concatenation at once.
pub proof fn lemma_feed_split(limit: nat, pending: Seq<u8>, first: Seq<u8>, second: Seq<u8>)
    ensures
        ({
            let head = feed_bytes(limit, pending, first);
            let tail = feed_bytes(limit, head.pending, second);
            feed_bytes(limit, pending, first + second) == (Scan {
                pending: tail.pending,
                items: head.items + tail.items,
            })
        }),
    decreases second.len(),
{
    let head = feed_bytes(limit, pending, first);
    if second.len() == 0 {
        assert(first + second =~= first);
        assert(head.items + Seq::<FeedItemView>::empty() =~= head.items);
    } else {
        lemma_feed_split(limit, pending, first, second.drop_last());
        assert((first + second).drop_last() =~= first + second.drop_last());
        let mid = feed_bytes(limit, head.pending, second.drop_last());
        let last = feed_byte(limit, mid.pending, second.last());
        assert((head.items + mid.items) + last.items =~= head.items + (mid.items + last.items));
    }
}

/// However a byte stream is cut into chunks, feeding the chunks one after
/// another gives what feeding the whole stream at once gives.
pub proof fn lemma_feed_chunks(limit: nat, pending: Seq<u8>, chunks: Seq<Seq<u8>>)
    ensures
        feed_chunks(limit, pending, chunks) == feed_bytes(limit, pending, chunks.flatten()),
    decreases chunks.len(),
{
    if chunks.len() == 0 {
    } else {
        let front = chunks.drop_last();
        lemma_feed_chunks(limit, pending, front);
        front.lemma_flatten_push(chunks.last());
        assert(front.push(chunks.last()) =~= chunks);
        lemma_feed_split(limit, pending, front.flatten(), chunks.last());
    }
}

/// The raw lines that `data` completes, in order: each is what stands
/// between a delimiter and the one before it, or the start of `data`.
pub open spec fn complete_lines(data: Seq<u8>) -> Seq<Seq<u8>>
    decreases data.len(),
{
    if data.len() == 0 {
        Seq::empty()
    } else if data.last() == NEWLINE {
        complete_lines(data.drop_last()).push(open_line(data.drop_last()))
    } else {
        complete_lines(data.drop_last())
    }
}

/// The line that `data` leaves open: what follows its last delimiter, or
/// all of it if it has none.
pub open spec fn open_line(data: Seq<u8>) -> Seq<u8>
    decreases data.len(),
{
    if data.len() == 0 || data.last() == NEWLINE {
        Seq::empty()
    } else {
        open_line(data.drop_last()).push(data.last())
    }
}

/// `lines` written out again, each followed by a delimiter.
pub open spec fn delimited(lines: Seq<Seq<u8>>) -> Seq<u8>
    decreases lines.len(),
{
    if lines.len() == 0 {
        Seq::empty()
    } else {
        delimited(lines.drop_last()) + lines.last().push(NEWLINE)
    }
}

/// Tells the delimiter from other bytes.
pub open spec fn is_delimiter() -> spec_fn(u8) -> bool {
    |byte: u8| byte == NEWLINE
}

/// How many delimiters `data` holds.
pub open spec fn delimiter_count(data: Seq<u8>) -> nat {
    data.filter(is_delimiter()).len()
}

/// Tells the raw lines that carry a barcode from the blank ones.
pub open spec fn has_barcode() -> spec_fn(Seq<u8>) -> bool {
    |raw: Seq<u8>| barcode_text(raw) is Some
}

/// The item that a raw line with a barcode produces.
pub open spec fn barcode_item() -> spec_fn(Seq<u8>) -> FeedItemView {
    |raw: Seq<u8>| FeedItemView::Barcode(barcode_text(raw)->0)
}

/// The items that `lines` produce: the barcode of every line that is not
/// blank, in the order of the lines.
pub open spec fn barcodes_of(lines: Seq<Seq<u8>>) -> Seq<FeedItemView> {
    lines.filter(has_barcode()).map_values(barcode_item())
}

/// No line of `data`, complete or open, is longer than `limit`.
pub open spec fn lines_fit(limit: nat, data: Seq<u8>) -> bool {
    &&& open_line(data).len() <= limit
    &&& forall|i: int|
        0 <= i < complete_lines(data).len() ==> (#[trigger] complete_lines(data)[i]).len() <= limit
}

/// Cutting at the delimiters loses nothing: no line holds a delimiter,
/// there is one complete line for each delimiter, and the complete lines,
/// each with its delimiter, followed by the open line are `data` again.
pub proof fn lemma_lines_partition(data: Seq<u8>)
    ensures
        complete_lines(data).len() == delimiter_count(data),
        forall|i: int|
            0 <= i < complete_lines(data).len() ==> !(#[trigger] complete_lines(data)[i]).contains(
                NEWLINE,
            ),
        !open_line(data).contains(NEWLINE),
        delimited(complete_lines(data)) + open_line(data) == data,
    decreases data.len(),
{
    reveal(Seq::filter);
    if data.len() == 0 {
        assert(delimited(complete_lines(data)) + open_line(data) =~= data);
    } else {
        let front = data.drop_last();
        let byte = data.last();
        lemma_lines_partition(front);
        assert(front.push(byte) =~= data);
        if byte == NEWLINE {
            let lines = complete_lines(data);
            assert(lines.drop_last() =~= complete_lines(front));
            assert(lines.last() == open_line(front));
            assert(delimited(lines) + open_line(data) =~= (delimited(complete_lines(front))
                + open_line(front)).push(NEWLINE));
        } else {
            let open = open_line(data);
            assert forall|i: int| 0 <= i < open.len() implies open[i] != NEWLINE by {
                if i < open_line(front).len() {
                    assert(open_line(front).contains(open_line(front)[i]));
                }
            }
            assert(delimited(complete_lines(data)) + open =~= (delimited(complete_lines(front))
                + open_line(front)).push(byte));
        }
    }
}

/// Bytes without a delimiter complete no line and are all still open.
pub proof fn lemma_no_delimiter_no_line(data: Seq<u8>)
    requires
        !data.contains(NEWLINE),
    ensures
        complete_lines(data) == Seq::<Seq<u8>>::empty(),
        open_line(data) == data,
    decreases data.len(),
{
    if data.len() > 0 {
        let front = data.drop_last();
        assert(data.contains(data.last()));
        assert forall|i: int| 0 <= i < front.len() implies front[i] != NEWLINE by {
            assert(data.contains(data[i]));
        }
        lemma_no_delimiter_no_line(front);
        assert(front.push(data.last()) =~= data);
    }
}

/// A further line adds its barcode, if it has one, after those of the
/// lines before it.
pub proof fn lemma_barcodes_push(lines: Seq<Seq<u8>>, raw: Seq<u8>)
    ensures
        barcodes_of(lines.push(raw)) == barcodes_of(lines) + line_items(raw),
{
    lines.lemma_filter_push(raw, has_barcode());
    let kept = lines.filter(has_barcode());
    if barcode_text(raw) is Some {
        assert(kept.push(raw).map_values(barcode_item()) =~= kept.map_values(barcode_item())
            + line_items(raw));
    } else {
        assert(barcodes_of(lines) + line_items(raw) =~= barcodes_of(lines));
    }
}

/// There are at most as many barcodes as lines, and exactly as many when
/// no line is blank.
pub proof fn lemma_barcodes_count(lines: Seq<Seq<u8>>)
    ensures
        barcodes_of(lines).len() <= lines.len(),
        (forall|i: int| 0 <= i < lines.len() ==> barcode_text(#[trigger] lines[i]) is Some)
            ==> barcodes_of(lines).len() == lines.len(),
    decreases lines.len(),
{
    reveal(Seq::filter);
    if lines.len() > 0 {
        lemma_barcodes_count(lines.drop_last());
        assert(lines.drop_last().push(lines.last()) =~= lines);
        lemma_barcodes_push(lines.drop_last(), lines.last());
        if forall|i: int| 0 <= i < lines.len() ==> barcode_text(#[trigger] lines[i]) is Some {
            assert forall|i: int| 0 <= i < lines.drop_last().len() implies barcode_text(
                #[trigger] lines.drop_last()[i],
            ) is Some by {
                assert(lines.drop_last()[i] == lines[i]);
            }
            assert(barcode_text(lines[lines.len() - 1]) is Some);
        }
    }
}

/// As long as no line outgrows the limit, feeding is cutting at the
/// delimiters: a chunk with `k` delimiters completes exactly `k` lines, each
/// non-blank one gives its barcode, in the order of the lines, and what
/// follows the last delimiter stays pending.
pub proof fn lemma_feed_cuts_at_delimiters(limit: nat, pending: Seq<u8>, bytes: Seq<u8>)
    requires
        !pending.contains(NEWLINE),
        lines_fit(limit, pending + bytes),
    ensures
        complete_lines(pending + bytes).len() == delimiter_count(bytes),
        feed_bytes(limit, pending, bytes) == (Scan {
            pending: open_line(pending + bytes),
            items: barcodes_of(complete_lines(pending + bytes)),
        }),
    decreases bytes.len(),
{
    reveal(Seq::filter);
    let data = pending + bytes;
    if bytes.len() == 0 {
        assert(data =~= pending);
        lemma_no_delimiter_no_line(pending);
        assert(barcodes_of(Seq::<Seq<u8>>::empty()) =~= Seq::empty());
    } else {
        let front = bytes.drop_last();
        let byte = bytes.last();
        let shorter = pending + front;
        assert(data.drop_last() =~= shorter);
        assert(data.last() == byte);
        assert(front.push(byte) =~= bytes);
        front.lemma_filter_push(byte, is_delimiter());
        if byte == NEWLINE {
            let lines = complete_lines(data);
            assert(lines[lines.len() - 1] == open_line(shorter));
            assert forall|i: int| 0 <= i < complete_lines(shorter).len() implies (
            #[trigger] complete_lines(shorter)[i]).len() <= limit by {
                assert(complete_lines(shorter)[i] == lines[i]);
            }
            lemma_feed_cuts_at_delimiters(limit, pending, front);
            lemma_barcodes_push(complete_lines(shorter), open_line(shorter));
        } else {
            lemma_feed_cuts_at_delimiters(limit, pending, front);
            assert(barcodes_of(complete_lines(shorter)) + Seq::<FeedItemView>::empty()
                =~= barcodes_of(complete_lines(shorter)));
        }
    }
}

/// Bytes without a delimiter that fit are simply added to the pending line.
pub proof fn lemma_feed_accumulates(limit: nat, pending: Seq<u8>, bytes: Seq<u8>)
    requires
        !bytes.contains(NEWLINE),
        pending.len() + bytes.len() <= limit,
    ensures
        feed_bytes(limit, pending, bytes) == (Scan {
            pending: pending + bytes,
            items: Seq::empty(),
        }),
    decreases bytes.len(),
{
    if bytes.len() == 0 {
        assert(pending + bytes =~= pending);
    } else {
        let front = bytes.drop_last();
        assert(bytes.contains(bytes.last()));
        assert forall|i: int| 0 <= i < front.len() implies front[i] != NEWLINE by {
            assert(bytes.contains(bytes[i]));
        }
        lemma_feed_accumulates(limit, pending, front);
        assert((pending + front).push(bytes.last()) =~= pending + bytes);
        let nothing = Seq::<FeedItemView>::empty();
        assert(nothing + nothing =~= nothing);
    }
}

/// A line that fits is decoded when its delimiter arrives, together with
/// what was pending before it, and nothing stays pending.
pub proof fn lemma_feed_line(limit: nat, pending: Seq<u8>, line: Seq<u8>)
    requires
        !line.contains(NEWLINE),
        pending.len() + line.len() <= limit,
    ensures
        feed_bytes(limit, pending, line.push(NEWLINE)) == (Scan {
            pending: Seq::empty(),
            items: line_items(pending + line),
        }),
{
    lemma_feed_accumulates(limit, pending, line);
    assert(line.push(NEWLINE).drop_last() =~= line);
    assert(Seq::<FeedItemView>::empty() + line_items(pending + line) =~= line_items(
        pending + line,
    ));
}

/// The byte that takes a pending line past the limit is answered with one
/// overflow, and nothing stays pending.
pub proof fn lemma_feed_overflow(limit: nat, pending: Seq<u8>, bytes: Seq<u8>)
    requires
        !bytes.contains(NEWLINE),
        pending.len() <= limit,
        pending.len() + bytes.len() == limit + 1,
    ensures
        feed_bytes(limit, pending, bytes) == (Scan {
            pending: Seq::empty(),
            items: seq![FeedItemView::Overflow],
        }),
{
    let front = bytes.drop_last();
    assert(bytes.contains(bytes.last()));
    assert forall|i: int| 0 <= i < front.len() implies front[i] != NEWLINE by {
        assert(bytes.contains(bytes[i]));
    }
    lemma_feed_accumulates(limit, pending, front);
    assert(Seq::<FeedItemView>::empty() + seq![FeedItemView::Overflow]
        =~= seq![FeedItemView::Overflow]);
}

/// An overflow costs only the line that caused it: once the pending line
/// has been dropped, the next line that fits is decoded as if nothing had
/// happened.
pub proof fn lemma_feed_recovers_after_overflow(
    limit: nat,
    pending: Seq<u8>,
    excess: Seq<u8>,
    line: Seq<u8>,
)
    requires
        !excess.contains(NEWLINE),
        pending.len() <= limit,
        pending.len() + excess.len() == limit + 1,
        !line.contains(NEWLINE),
        line.len() <= limit,
    ensures
        feed_bytes(limit, pending, excess + line.push(NEWLINE)) == (Scan {
            pending: Seq::empty(),
            items: seq![FeedItemView::Overflow] + line_items(line),
        }),
{
    lemma_feed_overflow(limit, pending, excess);
    lemma_feed_line(limit, Seq::empty(), line);
    assert(Seq::<u8>::empty() + line =~= line);
    lemma_feed_split(limit, pending, excess, line.push(NEWLINE));
}

/// `count` overflows in a row.
pub open spec fn overflows(count: nat) -> Seq<FeedItemView> {
    Seq::new(count, |i: int| FeedItemView::Overflow)
}

/// What is left of a line of any length once every overflow has dropped
/// its `limit + 1` bytes: the end of the line, shorter than that.
pub open spec fn kept(limit: nat, line: Seq<u8>) -> Seq<u8> {
    line.subrange(line.len() - line.len() % (limit + 1), line.len() as int)
}

/// What a completed raw line of any length produces: one overflow for each
/// `limit + 1` bytes, then the barcode of what was kept.
pub open spec fn line_outcome(limit: nat, line: Seq<u8>) -> Seq<FeedItemView> {
    overflows(line.len() / (limit + 1)) + line_items(kept(limit, line))
}

/// What `lines` produce, one after another.
pub open spec fn outcomes(limit: nat, lines: Seq<Seq<u8>>) -> Seq<FeedItemView>
    decreases lines.len(),
{
    if lines.len() == 0 {
        Seq::empty()
    } else {
        outcomes(limit, lines.drop_last()) + line_outcome(limit, lines.last())
    }
}

/// How quotient and remainder move when one is added.
proof fn lemma_step_div_mod(n: nat, m: nat)
    requires
        m > 0,
    ensures
        n % m < m,
        n % m <= n,
        n % m == m - 1 ==> (n + 1) % m == 0 && (n + 1) / m == n / m + 1,
        n % m != m - 1 ==> (n + 1) % m == n % m + 1 && (n + 1) / m == n / m,
{
    let q = n as int / m as int;
    let r = n as int % m as int;
    vstd::arithmetic::div_mod::lemma_fundamental_div_mod(n as int, m as int);
    vstd::arithmetic::div_mod::lemma_mod_bound(n as int, m as int);
    vstd::arithmetic::div_mod::lemma_div_pos_is_pos(n as int, m as int);
    assert(r <= n) by (nonlinear_arith)
        requires
            n == m * q + r,
            q >= 0,
            m > 0,
    ;
    if r == m - 1 {
        assert(n + 1 == (q + 1) * m + 0) by (nonlinear_arith)
            requires
                n == m * q + r,
                r == m - 1,
        ;
        vstd::arithmetic::div_mod::lemma_fundamental_div_mod_converse(
            n as int + 1,
            m as int,
            q + 1,
            0,
        );
    } else {
        assert(n + 1 == q * m + (r + 1)) by (nonlinear_arith)
            requires
                n == m * q + r,
        ;
        vstd::arithmetic::div_mod::lemma_fundamental_div_mod_converse(
            n as int + 1,
            m as int,
            q,
            r + 1,
        );
    }
}

/// Feeding in closed form, for every input. Cut the stream at its
/// delimiters. Every complete line gives one overflow for each
/// `limit + 1` bytes it holds and then the barcode of what was kept of it,
/// unless that is blank; the open line gives its overflows, and what was
/// kept of it stays pending.
pub proof fn lemma_feed_closed_form(limit: nat, pending: Seq<u8>, bytes: Seq<u8>)
    requires
        is_pending_line(limit, pending),
    ensures
        ({
            let data = pending + bytes;
            feed_bytes(limit, pending, bytes) == (Scan {
                pending: kept(limit, open_line(data)),
                items: outcomes(limit, complete_lines(data)) + overflows(
                    open_line(data).len() / (limit + 1),
                ),
            })
        }),
    decreases bytes.len(),
{
    let data = pending + bytes;
    let m = limit + 1;
    if bytes.len() == 0 {
        assert(data =~= pending);
        lemma_no_delimiter_no_line(pending);
        vstd::arithmetic::div_mod::lemma_small_mod(pending.len(), m);
        vstd::arithmetic::div_mod::lemma_basic_div(pending.len() as int, m as int);
        assert(kept(limit, pending) =~= pending);
        assert(outcomes(limit, Seq::<Seq<u8>>::empty()) + overflows(0) =~= Seq::empty());
    } else {
        let front = bytes.drop_last();
        let byte = bytes.last();
        let shorter = pending + front;
        assert(data.drop_last() =~= shorter);
        assert(data.last() == byte);
        lemma_feed_closed_form(limit, pending, front);
        let open = open_line(shorter);
        let lines = complete_lines(shorter);
        let before = feed_bytes(limit, pending, front);
        lemma_step_div_mod(open.len(), m);
        if byte == NEWLINE {
            assert(complete_lines(data).drop_last() =~= lines);
            assert(complete_lines(data).last() == open);
            vstd::arithmetic::div_mod::lemma_small_mod(0, m);
            vstd::arithmetic::div_mod::lemma_basic_div(0, m as int);
            assert(kept(limit, Seq::<u8>::empty()) =~= Seq::<u8>::empty());
            assert((outcomes(limit, lines) + overflows(open.len() / m)) + line_items(
                kept(limit, open),
            ) =~= (outcomes(limit, lines) + line_outcome(limit, open)) + overflows(0));
        } else {
            let longer = open.push(byte);
            assert(open_line(data) == longer);
            assert(before.pending.len() == open.len() % m);
            if before.pending.len() >= limit {
                assert(kept(limit, longer) =~= Seq::<u8>::empty());
                assert(overflows(open.len() / m) + seq![FeedItemView::Overflow] =~= overflows(
                    longer.len() / m,
                ));
                assert((outcomes(limit, lines) + overflows(open.len() / m))
                    + seq![FeedItemView::Overflow] =~= outcomes(limit, lines) + overflows(
                    longer.len() / m,
                ));
            } else {
                assert(kept(limit, longer) =~= kept(limit, open).push(byte));
                let so_far = outcomes(limit, lines) + overflows(open.len() / m);
                assert(so_far + Seq::<FeedItemView>::empty() =~= so_far);
            }
        }
    }
}

/// The state of a [`LineAccumulator`] as a mathematical value.
#[verifier::ext_equal]
pub struct Accumulation {
    /// The bytes received since the last delimiter.
    pub pending: Seq<u8>,
    /// The most bytes a pending line may hold.
    pub limit: usize,
}

/// Collects the bytes of one device's stream and cuts them into lines.
pub struct LineAccumulator {
    buffer: Vec<u8>,
    limit: usize,
}

impl View for LineAccumulator {
    type V = Accumulation;

    closed spec fn view(&self) -> Accumulation {
        Accumulation { pending: self.buffer@, limit: self.limit }
    }
}

impl LineAccumulator {
    /// What holds of every accumulator: its pending line is within its
    /// limit and holds no delimiter.
    #[verifier::type_invariant]
    pub open spec fn well_formed(self) -> bool {
        is_pending_line(self@.limit as nat, self@.pending)
    }

    /// An accumulator with nothing pending, whose pending line may grow to
    /// `limit` bytes.
    pub fn new(limit: usize) -> (acc: Self)
        ensures
            acc@ == (Accumulation { pending: Seq::empty(), limit }),
    {
        LineAccumulator { buffer: Vec::new(), limit }
    }

    /// The most bytes a pending line may hold.
    pub fn limit(&self) -> (limit: usize)
        ensures
            limit == self@.limit,
    {
        self.limit
    }

    /// How many bytes are waiting for their delimiter.
    pub fn pending_len(&self) -> (n: usize)
        ensures
            n == self@.pending.len(),
            n <= self@.limit,
    {
        proof {
            use_type_invariant(self);
        }
        self.buffer.len()
    }

    /// Takes the next chunk of the stream and returns what it completes,
    /// oldest first. Bytes after the last delimiter stay pending.
    pub fn feed(&mut self, bytes: &[u8]) -> (items: Vec<FeedItem>)
        ensures
            final(self)@.limit == old(self)@.limit,
            feed_bytes(old(self)@.limit as nat, old(self)@.pending, bytes@) == (Scan {
                pending: final(self)@.pending,
                items: item_views(items@),
            }),
            is_pending_line(final(self)@.limit as nat, final(self)@.pending),
    {
        proof {
            use_type_invariant(&*self);
        }
        let limit: usize = self.limit;
        let ghost start = self.buffer@;
        let mut buffer: Vec<u8> = Vec::new();
        std::mem::swap(&mut buffer, &mut self.buffer);
        let mut items: Vec<FeedItem> = Vec::new();
        let mut i: usize = 0;
        assert(item_views(items@) =~= Seq::empty());
        while i < bytes.len()
            invariant
                i <= bytes.len(),
                is_pending_line(limit as nat, buffer@),
                feed_bytes(limit as nat, start, bytes@.take(i as int)) == (Scan {
                    pending: buffer@,
                    items: item_views(items@),
                }),
            decreases bytes.len() - i,
        {
            let byte: u8 = bytes[i];
            let ghost before = buffer@;
            let ghost produced = items@;
            proof {
                assert(bytes@.take(i + 1).drop_last() =~= bytes@.take(i as int));
                assert(bytes@.take(i + 1).last() == byte);
            }
            if byte == NEWLINE {
                match decode_line(buffer.as_slice()) {
                    Some(text) => {
                        items.push(FeedItem::Barcode(text));
                        assert(item_views(items@) =~= item_views(produced) + line_items(before));
                    },
                    None => {
                        assert(item_views(items@) =~= item_views(produced) + line_items(before));
                    },
                }
                buffer.clear();
            } else if buffer.len() >= limit {
                buffer.clear();
                items.push(FeedItem::Overflow);
                assert(item_views(items@) =~= item_views(produced) + seq![FeedItemView::Overflow]);
            } else {
                buffer.push(byte);
                assert(item_views(items@) =~= item_views(produced) + Seq::empty());
                assert forall|j: int| 0 <= j < buffer@.len() implies buffer@[j] != NEWLINE by {
                    if j < before.len() {
                        assert(before.contains(before[j]));
                    }
                }
            }
            i = i + 1;
        }
        assert(bytes@.take(i as int) =~= bytes@);
        self.buffer = buffer;
        items
    }
}

} // verus!
