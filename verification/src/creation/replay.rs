//! The order in which saved parts come back.
//!
//! A transmission extends another part, and the file may list it before that
//! part. Parts that extend nothing come back first, in row order; each
//! transmission follows what it extends.

use vstd::prelude::*;

use super::doc::{CreationError, PartDoc, PartError};
use super::rows::{parent_in, part_doc_fault, refused};

verus! {

/// Rows of the parts that extend nothing, among the first `count`.
pub open spec fn plain_rows(docs: Seq<PartDoc>, count: int) -> Seq<u32>
    decreases count,
{
    if count <= 0 {
        Seq::empty()
    } else if parent_in(docs[count - 1]) is None {
        plain_rows(docs, count - 1).push((count - 1) as u32)
    } else {
        plain_rows(docs, count - 1)
    }
}

/// Rows of the transmissions that extend row `parent`, among the first `count`.
pub open spec fn extensions(docs: Seq<PartDoc>, parent: int, count: int) -> Seq<u32>
    decreases count,
{
    if count <= 0 {
        Seq::empty()
    } else if extends(docs, count - 1, parent) {
        extensions(docs, parent, count - 1).push((count - 1) as u32)
    } else {
        extensions(docs, parent, count - 1)
    }
}

/// Whether a row's part extends the one in row `parent`.
pub open spec fn extends(docs: Seq<PartDoc>, row: int, parent: int) -> bool {
    parent_in(docs[row]) is Some && parent_in(docs[row])->0 == parent
}

/// Whether a row's part extends one that extends nothing.
pub open spec fn extends_plain(docs: Seq<PartDoc>, row: int) -> bool {
    parent_in(docs[row]) is Some && parent_in(docs[parent_in(docs[row])->0 as int]) is None
}

/// Rows of the transmissions that extend a part that extends nothing, among the first `count`.
pub open spec fn first_extensions(docs: Seq<PartDoc>, count: int) -> Seq<u32>
    decreases count,
{
    if count <= 0 {
        Seq::empty()
    } else if extends_plain(docs, count - 1) {
        first_extensions(docs, count - 1).push((count - 1) as u32)
    } else {
        first_extensions(docs, count - 1)
    }
}

/// The next `steps` rows to come back while `ready` wait on their own: the
/// last one that waits, then whatever extends it waits after the others.
pub open spec fn attach_order(docs: Seq<PartDoc>, ready: Seq<u32>, steps: nat) -> Seq<u32>
    decreases steps,
{
    if steps == 0 || ready.len() == 0 {
        Seq::empty()
    } else {
        seq![ready.last()] + attach_order(
            docs,
            ready.drop_last() + extensions(docs, ready.last() as int, docs.len() as int),
            (steps - 1) as nat,
        )
    }
}

/// Every row that comes back, in order.
pub open spec fn replay_order(docs: Seq<PartDoc>) -> Seq<u32> {
    plain_rows(docs, docs.len() as int) + attach_order(
        docs,
        first_extensions(docs, docs.len() as int),
        docs.len(),
    )
}

/// Whether a row's part stands on one that extends nothing, at most `steps` upstream.
pub open spec fn anchored_within(docs: Seq<PartDoc>, row: int, steps: nat) -> bool
    decreases steps,
{
    ||| parent_in(docs[row]) is None
    ||| steps > 0 && anchored_within(docs, parent_in(docs[row])->0 as int, (steps - 1) as nat)
}

/// Whether a row's part stands on one that extends nothing.
pub open spec fn anchored(docs: Seq<PartDoc>, row: int) -> bool {
    exists|steps: nat| #[trigger] anchored_within(docs, row, steps)
}

/// Why the first `count` parts are refused, if they are: the earliest row whose
/// dimensions or layers are refused, whose upstream part the file lacks, or
/// whose upstream part is on another grid.
pub open spec fn first_part_fault(
    docs: Seq<PartDoc>,
    checks: Seq<Result<(), PartError>>,
    part_frames: Seq<u32>,
    count: int,
) -> Option<CreationError>
    decreases count,
{
    if count <= 0 {
        None
    } else {
        match first_part_fault(docs, checks, part_frames, count - 1) {
            Some(error) => Some(error),
            None => part_row_fault(docs, checks, part_frames, count - 1),
        }
    }
}

/// Why one part is refused, if it is.
pub open spec fn part_row_fault(
    docs: Seq<PartDoc>,
    checks: Seq<Result<(), PartError>>,
    part_frames: Seq<u32>,
    row: int,
) -> Option<CreationError> {
    match parent_in(docs[row]) {
        None => part_doc_fault(docs[row], checks[row]),
        Some(parent) => if parent >= docs.len() {
            Some(CreationError::MissingPart(parent))
        } else if part_frames[row] != part_frames[parent as int] {
            Some(CreationError::TransmissionFrame(row as u32))
        } else {
            None
        },
    }
}

/// The upstream part of the earliest of the first `count` rows that stands on nothing.
pub open spec fn first_unanchored(docs: Seq<PartDoc>, count: int) -> Option<CreationError>
    decreases count,
{
    if count <= 0 {
        None
    } else {
        match first_unanchored(docs, count - 1) {
            Some(error) => Some(error),
            None => if anchored(docs, count - 1) {
                None
            } else {
                Some(CreationError::MissingPart(parent_in(docs[count - 1])->0))
            },
        }
    }
}

/// Whether every upstream part is a row.
pub open spec fn parents_listed(docs: Seq<PartDoc>) -> bool {
    forall|i: int|
        #![trigger docs[i]]
        0 <= i < docs.len() && parent_in(docs[i]) is Some ==> parent_in(docs[i])->0 < docs.len()
}

/// The upstream part that a row names.
fn parent_of(doc: &PartDoc) -> (parent: Option<u32>)
    ensures
        parent == parent_in(*doc),
{
    match doc {
        PartDoc::Transmission { parent, .. } => Some(*parent),
        _ => None,
    }
}

/// A fault among the first rows is the fault of all rows.
proof fn lemma_part_fault_stays(
    docs: Seq<PartDoc>,
    checks: Seq<Result<(), PartError>>,
    part_frames: Seq<u32>,
    short: int,
    long: int,
)
    requires
        short <= long,
        first_part_fault(docs, checks, part_frames, short) is Some,
    ensures
        first_part_fault(docs, checks, part_frames, long) == first_part_fault(docs, checks, part_frames, short),
    decreases long - short,
{
    if short < long {
        lemma_part_fault_stays(docs, checks, part_frames, short, long - 1);
    }
}

/// Rows without a fault name upstream rows on their own grid.
pub proof fn lemma_faultless_part(
    docs: Seq<PartDoc>,
    checks: Seq<Result<(), PartError>>,
    part_frames: Seq<u32>,
    count: int,
    row: int,
)
    requires
        0 <= row < count,
        first_part_fault(docs, checks, part_frames, count) is None,
    ensures
        part_row_fault(docs, checks, part_frames, row) is None,
    decreases count,
{
    if row < count - 1 {
        lemma_faultless_part(docs, checks, part_frames, count - 1, row);
    }
}

/// Checks every part's row on its own.
pub fn check_parts(
    docs: &Vec<PartDoc>,
    checks: &Vec<Result<(), PartError>>,
    part_frames: &Vec<u32>,
) -> (checked: Result<(), CreationError>)
    requires
        docs@.len() <= u32::MAX,
        checks@.len() == docs@.len(),
        part_frames@.len() == docs@.len(),
    ensures
        checked == (match first_part_fault(docs@, checks@, part_frames@, docs@.len() as int) {
            Some(error) => Err::<(), CreationError>(error),
            None => Ok(()),
        }),
        checked is Ok ==> parents_listed(docs@),
{
    let mut i: usize = 0;
    while i < docs.len()
        invariant
            i <= docs@.len() <= u32::MAX,
            checks@.len() == docs@.len(),
            part_frames@.len() == docs@.len(),
            first_part_fault(docs@, checks@, part_frames@, i as int) is None,
        decreases docs@.len() - i,
    {
        let fault: Option<CreationError> = match parent_of(&docs[i]) {
            None => refused(&docs[i], &checks[i]),
            Some(parent) => if parent as usize >= docs.len() {
                Some(CreationError::MissingPart(parent))
            } else if part_frames[i] != part_frames[parent as usize] {
                Some(CreationError::TransmissionFrame(i as u32))
            } else {
                None
            },
        };
        match fault {
            Some(error) => {
                assert(first_part_fault(docs@, checks@, part_frames@, i + 1) == Some(error));
                proof {
                    lemma_part_fault_stays(docs@, checks@, part_frames@, i + 1, docs@.len() as int);
                }
                return Err(error);
            },
            None => {},
        }
        i += 1;
    }
    proof {
        assert forall|k: int| #![trigger docs@[k]]
            0 <= k < docs@.len() && parent_in(docs@[k]) is Some implies parent_in(docs@[k])->0
            < docs@.len() by {
            lemma_faultless_part(docs@, checks@, part_frames@, docs@.len() as int, k);
        }
    }
    Ok(())
}

/// Rows in a filtered list come from the rows that were looked at.
pub proof fn lemma_plain_rows(docs: Seq<PartDoc>, count: int)
    requires
        0 <= count <= docs.len() <= u32::MAX,
    ensures
        plain_rows(docs, count).len() <= count,
        plain_rows(docs, count).no_duplicates(),
        forall|row: u32| #[trigger]
            plain_rows(docs, count).contains(row) <==> row < count && parent_in(docs[row as int])
                is None,
    decreases count,
{
    if count > 0 {
        lemma_plain_rows(docs, count - 1);
        let shorter = plain_rows(docs, count - 1);
        if parent_in(docs[count - 1]) is None {
            lemma_push_row(shorter, (count - 1) as u32);
        }
    }
}

/// Pushing a fresh row keeps rows distinct.
proof fn lemma_push_row(rows: Seq<u32>, row: u32)
    requires
        rows.no_duplicates(),
        !rows.contains(row),
    ensures
        rows.push(row).no_duplicates(),
        forall|other: u32| #[trigger]
            rows.push(row).contains(other) <==> rows.contains(other) || other == row,
{
    let longer = rows.push(row);
    assert forall|i: int, j: int| 0 <= i < longer.len() && 0 <= j < longer.len() && i != j implies longer[i]
        != longer[j] by {
        if i < rows.len() && j < rows.len() {
            assert(rows[i] != rows[j]);
        } else if i < rows.len() {
            assert(rows.contains(rows[i]));
        } else {
            assert(rows.contains(rows[j]));
        }
    }
    assert forall|other: u32| #[trigger] longer.contains(other) <==> rows.contains(other) || other
        == row by {
        if rows.contains(other) {
            let i = rows.index_of(other);
            assert(longer[i] == other);
        }
        if other == row {
            assert(longer[rows.len() as int] == row);
        }
        if longer.contains(other) {
            let i = longer.index_of(other);
            assert(longer[i] == other);
            if i < rows.len() {
                assert(rows[i] == other);
            }
        }
    }
}

/// The transmissions that extend a row.
proof fn lemma_extensions(docs: Seq<PartDoc>, parent: int, count: int)
    requires
        0 <= count <= docs.len() <= u32::MAX,
    ensures
        extensions(docs, parent, count).no_duplicates(),
        forall|row: u32| #[trigger]
            extensions(docs, parent, count).contains(row) <==> row < count && extends(
                docs,
                row as int,
                parent,
            ),
    decreases count,
{
    if count > 0 {
        lemma_extensions(docs, parent, count - 1);
        if extends(docs, count - 1, parent) {
            lemma_push_row(extensions(docs, parent, count - 1), (count - 1) as u32);
        }
    }
}

/// The transmissions that extend parts that extend nothing.
proof fn lemma_first_extensions(docs: Seq<PartDoc>, count: int)
    requires
        0 <= count <= docs.len() <= u32::MAX,
    ensures
        first_extensions(docs, count).no_duplicates(),
        forall|row: u32| #[trigger]
            first_extensions(docs, count).contains(row) <==> row < count && extends_plain(
                docs,
                row as int,
            ),
    decreases count,
{
    if count > 0 {
        lemma_first_extensions(docs, count - 1);
        if extends_plain(docs, count - 1) {
            lemma_push_row(first_extensions(docs, count - 1), (count - 1) as u32);
        }
    }
}

/// Distinct rows below `count` are at most `count`.
proof fn lemma_rows_fit(rows: Seq<u32>, count: int)
    requires
        rows.no_duplicates(),
        forall|i: int| #![trigger rows[i]] 0 <= i < rows.len() ==> rows[i] < count,
        count >= 0,
    ensures
        rows.len() <= count,
{
    let ints = rows.map_values(|row: u32| row as int);
    assert(ints.no_duplicates());
    let range = vstd::set_lib::set_int_range(0, count);
    vstd::set_lib::lemma_int_range(0, count);
    ints.unique_seq_to_set();
    assert(ints.to_set().subset_of(range)) by {
        assert forall|x: int| ints.to_set().contains(x) implies range.contains(x) by {
            let i = ints.index_of(x);
            assert(ints[i] == x);
            assert(rows[i] < count);
        }
    }
    vstd::set_lib::lemma_len_subset(ints.to_set(), range);
}

/// Lists, for every row, the transmissions that extend it.
fn list_extensions(docs: &Vec<PartDoc>) -> (lists: Vec<Vec<u32>>)
    requires
        docs@.len() <= u32::MAX,
        parents_listed(docs@),
    ensures
        lists@.len() == docs@.len(),
        forall|p: int|
            #![trigger lists@[p]]
            0 <= p < lists@.len() ==> lists@[p]@ == extensions(docs@, p, docs@.len() as int),
{
    let mut lists: Vec<Vec<u32>> = Vec::new();
    while lists.len() < docs.len()
        invariant
            lists@.len() <= docs@.len(),
            forall|p: int|
                #![trigger lists@[p]]
                0 <= p < lists@.len() ==> lists@[p]@ == extensions(docs@, p, 0),
        decreases docs@.len() - lists@.len(),
    {
        lists.push(Vec::new());
    }
    let mut i: usize = 0;
    while i < docs.len()
        invariant
            i <= docs@.len() <= u32::MAX,
            lists@.len() == docs@.len(),
            parents_listed(docs@),
            forall|p: int|
                #![trigger lists@[p]]
                0 <= p < lists@.len() ==> lists@[p]@ == extensions(docs@, p, i as int),
        decreases docs@.len() - i,
    {
        let ghost before = lists@;
        match parent_of(&docs[i]) {
            Some(parent) => {
                assert(parent_in(docs@[i as int])->0 < docs@.len());
                lists[parent as usize].push(i as u32);
            },
            None => {},
        }
        proof {
            assert forall|p: int| #![trigger lists@[p]]
                0 <= p < lists@.len() implies lists@[p]@ == extensions(docs@, p, i + 1) by {
                assert(before[p]@ == extensions(docs@, p, i as int));
            }
        }
        i += 1;
    }
    lists
}

/// What is known of the rows that are back and those that wait on their own.
spec fn replaying(docs: Seq<PartDoc>, order: Seq<u32>, ready: Seq<u32>, placed: Seq<bool>) -> bool {
    &&& placed.len() == docs.len()
    &&& order.no_duplicates()
    &&& forall|row: u32| #[trigger]
        order.contains(row) <==> row < docs.len() && placed[row as int]
    &&& ready.no_duplicates()
    &&& forall|row: u32| #[trigger]
        ready.contains(row) <==> row < docs.len() && !placed[row as int] && parent_in(
            docs[row as int],
        ) is Some && placed[parent_in(docs[row as int])->0 as int]
    &&& forall|i: int|
        #![trigger placed[i]]
        0 <= i < docs.len() && parent_in(docs[i]) is None ==> placed[i]
    &&& forall|i: int|
        #![trigger placed[i]]
        0 <= i < docs.len() && placed[i] ==> anchored(docs, i)
    &&& forall|i: int|
        #![trigger placed[i]]
        0 <= i < docs.len() && placed[i] && parent_in(docs[i]) is Some ==> placed[parent_in(
            docs[i],
        )->0 as int]
}

/// One more row comes back: what extends it starts to wait.
proof fn lemma_replay_step(
    docs: Seq<PartDoc>,
    order: Seq<u32>,
    ready: Seq<u32>,
    placed: Seq<bool>,
)
    requires
        docs.len() <= u32::MAX,
        parents_listed(docs),
        replaying(docs, order, ready, placed),
        ready.len() > 0,
    ensures
        ready.last() < docs.len(),
        order.len() < docs.len(),
        replaying(
            docs,
            order.push(ready.last()),
            ready.drop_last() + extensions(docs, ready.last() as int, docs.len() as int),
            placed.update(ready.last() as int, true),
        ),
{
    let row = ready.last();
    let n = docs.len() as int;
    assert(ready[ready.len() - 1] == row);
    assert(ready.contains(row));
    assert(!order.contains(row));
    lemma_push_row(order, row);
    let longer = order.push(row);
    assert forall|i: int| #![trigger longer[i]] 0 <= i < longer.len() implies longer[i] < n by {
        assert(longer.contains(longer[i]));
        assert(order.contains(longer[i]) <==> longer[i] < docs.len() && placed[longer[i] as int]);
    }
    lemma_rows_fit(longer, n);
    let after = placed.update(row as int, true);
    let rest = ready.drop_last();
    let more = extensions(docs, row as int, n);
    let waits = rest + more;
    lemma_extensions(docs, row as int, n);
    assert forall|other: u32| #[trigger] rest.contains(other) <==> ready.contains(other) && other
        != row by {
        if rest.contains(other) {
            let i = rest.index_of(other);
            assert(ready[i] == other);
        }
        if ready.contains(other) && other != row {
            let i = ready.index_of(other);
            assert(rest[i] == other);
        }
    }
    assert forall|other: u32| #[trigger] waits.contains(other) <==> rest.contains(other)
        || more.contains(other) by {
        if rest.contains(other) {
            assert(waits[rest.index_of(other)] == other);
        }
        if more.contains(other) {
            assert(waits[rest.len() + more.index_of(other)] == other);
        }
        if waits.contains(other) {
            let i = waits.index_of(other);
            if i < rest.len() {
                assert(rest[i] == other);
            } else {
                assert(more[i - rest.len()] == other);
            }
        }
    }
    assert forall|i: int, j: int| 0 <= i < waits.len() && 0 <= j < waits.len() && i != j implies waits[i]
        != waits[j] by {
        if i < rest.len() && j < rest.len() {
            assert(ready[i] != ready[j]);
        } else if i >= rest.len() && j >= rest.len() {
            assert(more[i - rest.len()] != more[j - rest.len()]);
        } else {
            let (a, b) = if i < rest.len() {
                (i, j - rest.len())
            } else {
                (j, i - rest.len())
            };
            assert(rest.contains(rest[a]));
            assert(ready.contains(rest[a]));
            assert(more.contains(more[b]));
        }
    }
    assert forall|other: u32| #[trigger] longer.contains(other) <==> other < docs.len()
        && after[other as int] by {
        assert(order.contains(other) <==> other < docs.len() && placed[other as int]);
    }
    assert forall|other: u32| #[trigger] waits.contains(other) <==> other < docs.len()
        && !after[other as int] && parent_in(docs[other as int]) is Some
        && after[parent_in(docs[other as int])->0 as int] by {
        if other < docs.len() && parent_in(docs[other as int]) is Some {
            assert(parent_in(docs[other as int])->0 < docs.len());
        }
        assert(rest.contains(other) <==> ready.contains(other) && other != row);
        assert(more.contains(other) <==> other < n && extends(docs, other as int, row as int));
        if more.contains(other) && after[other as int] {
            if other == row {
                assert(parent_in(docs[row as int])->0 == row);
            } else {
                assert(placed[other as int]);
            }
        }
    }
    assert forall|i: int| #![trigger after[i]] 0 <= i < docs.len() && after[i] implies anchored(
        docs,
        i,
    ) by {
        if i == row {
            let parent = parent_in(docs[i])->0 as int;
            assert(placed[parent]);
            assert(anchored(docs, parent));
            let steps = choose|steps: nat| #[trigger] anchored_within(docs, parent, steps);
            assert(anchored_within(docs, i, steps + 1));
        } else {
            assert(placed[i]);
        }
    }
    assert forall|i: int| #![trigger after[i]]
        0 <= i < docs.len() && parent_in(docs[i]) is None implies after[i] by {
        assert(placed[i]);
    }
    assert forall|i: int| #![trigger after[i]]
        0 <= i < docs.len() && after[i] && parent_in(docs[i]) is Some implies after[parent_in(
        docs[i],
    )->0 as int] by {
        assert(parent_in(docs[i])->0 < docs.len());
        if i != row {
            assert(placed[i]);
        }
    }
}

/// With nothing waiting, every row that stands on something is back.
proof fn lemma_replay_complete(
    docs: Seq<PartDoc>,
    order: Seq<u32>,
    placed: Seq<bool>,
    row: int,
    steps: nat,
)
    requires
        docs.len() <= u32::MAX,
        parents_listed(docs),
        replaying(docs, order, Seq::<u32>::empty(), placed),
        0 <= row < docs.len(),
        anchored_within(docs, row, steps),
    ensures
        placed[row],
    decreases steps,
{
    if parent_in(docs[row]) is Some {
        let parent = parent_in(docs[row])->0 as int;
        assert(docs[row] == docs[row] && parent < docs.len());
        lemma_replay_complete(docs, order, placed, parent, (steps - 1) as nat);
        assert(!Seq::<u32>::empty().contains(row as u32));
    }
}

/// Whether rows without an upstream part come first, and every other row
/// behind the one that it extends.
pub open spec fn upstream_first(docs: Seq<PartDoc>, order: Seq<u32>) -> bool {
    let plain = plain_rows(docs, docs.len() as int).len();
    &&& plain <= order.len()
    &&& forall|k: int|
        #![trigger order[k]]
        0 <= k < order.len() ==> (parent_in(docs[order[k] as int]) is None <==> k < plain)
    &&& forall|k: int|
        #![trigger order[k]]
        plain <= k < order.len() ==> order.take(k).contains(parent_in(docs[order[k] as int])->0)
}

/// A row that extends one of an order may follow that order.
proof fn lemma_upstream_first(docs: Seq<PartDoc>, order: Seq<u32>, row: u32)
    requires
        upstream_first(docs, order),
        parent_in(docs[row as int]) is Some,
        order.contains(parent_in(docs[row as int])->0),
    ensures
        upstream_first(docs, order.push(row)),
{
    let longer = order.push(row);
    let plain = plain_rows(docs, docs.len() as int).len();
    assert forall|k: int| #![trigger longer[k]] 0 <= k < longer.len() implies (parent_in(
        docs[longer[k] as int],
    ) is None <==> k < plain) by {
        if k < order.len() {
            assert(longer[k] == order[k]);
        }
    }
    assert forall|k: int| #![trigger longer[k]] plain <= k < longer.len() implies longer.take(
        k,
    ).contains(parent_in(docs[longer[k] as int])->0) by {
        if k < order.len() {
            assert(longer[k] == order[k]);
            assert(longer.take(k) =~= order.take(k));
        } else {
            assert(longer.take(k) =~= order);
        }
    }
}

/// Puts every row that comes back in order.
pub fn order_parts(docs: &Vec<PartDoc>) -> (order: Vec<u32>)
    requires
        docs@.len() <= u32::MAX,
        parents_listed(docs@),
    ensures
        order@ == replay_order(docs@),
        order@.no_duplicates(),
        forall|row: u32| #[trigger]
            order@.contains(row) <==> row < docs@.len() && anchored(docs@, row as int),
        upstream_first(docs@, order@),
{
    let lists: Vec<Vec<u32>> = list_extensions(docs);
    let mut order: Vec<u32> = Vec::new();
    let mut ready: Vec<u32> = Vec::new();
    let mut placed: Vec<bool> = Vec::new();
    let mut i: usize = 0;
    while i < docs.len()
        invariant
            i <= docs@.len() <= u32::MAX,
            parents_listed(docs@),
            order@ == plain_rows(docs@, i as int),
            ready@ == first_extensions(docs@, i as int),
            placed@.len() == i,
            forall|k: int|
                #![trigger placed@[k]]
                0 <= k < i ==> placed@[k] == (parent_in(docs@[k]) is None),
        decreases docs@.len() - i,
    {
        match parent_of(&docs[i]) {
            None => {
                order.push(i as u32);
                placed.push(true);
            },
            Some(parent) => {
                assert(parent_in(docs@[i as int])->0 < docs@.len());
                if parent_of(&docs[parent as usize]).is_none() {
                    ready.push(i as u32);
                }
                placed.push(false);
            },
        }
        i += 1;
    }
    let ghost total = docs@.len();
    let ghost plain = order@.len();
    proof {
        lemma_plain_rows(docs@, docs@.len() as int);
        lemma_first_extensions(docs@, docs@.len() as int);
        assert forall|row: u32| #[trigger] ready@.contains(row) <==> row < docs@.len()
            && !placed@[row as int] && parent_in(docs@[row as int]) is Some
            && placed@[parent_in(docs@[row as int])->0 as int] by {
            if row < docs@.len() && parent_in(docs@[row as int]) is Some {
                assert(parent_in(docs@[row as int])->0 < docs@.len());
            }
        }
        assert forall|k: int| #![trigger placed@[k]] 0 <= k < docs@.len() && placed@[k] implies anchored(
            docs@,
            k,
        ) by {
            assert(anchored_within(docs@, k, 0));
        }
        assert(replaying(docs@, order@, ready@, placed@));
        assert(order@ + attach_order(docs@, ready@, total) == replay_order(docs@));
        assert forall|k: int| #![trigger order@[k]] 0 <= k < order@.len() implies parent_in(
            docs@[order@[k] as int],
        ) is None by {
            assert(order@.contains(order@[k]));
        }
    }
    while ready.len() > 0
        invariant
            docs@.len() <= u32::MAX,
            parents_listed(docs@),
            total == docs@.len(),
            plain <= order@.len() <= total,
            lists@.len() == docs@.len(),
            forall|p: int|
                #![trigger lists@[p]]
                0 <= p < lists@.len() ==> lists@[p]@ == extensions(docs@, p, docs@.len() as int),
            replaying(docs@, order@, ready@, placed@),
            order@ + attach_order(docs@, ready@, (total - (order@.len() - plain)) as nat)
                == replay_order(docs@),
            plain == plain_rows(docs@, docs@.len() as int).len(),
            upstream_first(docs@, order@),
        decreases docs@.len() - order@.len(),
    {
        let ghost waiting = ready@;
        let ghost before = order@;
        let ghost steps = (total - (order@.len() - plain)) as nat;
        proof {
            assert(ready@.contains(ready@[ready@.len() - 1]));
            assert(parent_in(docs@[ready@.last() as int])->0 < docs@.len());
            assert(order@.contains(parent_in(docs@[ready@.last() as int])->0));
            lemma_replay_step(docs@, order@, ready@, placed@);
        }
        match ready.pop() {
            Some(row) => {
                assert(row == waiting.last());
                order.push(row);
                placed.set(row as usize, true);
                let more: &Vec<u32> = &lists[row as usize];
                let mut k: usize = 0;
                while k < more.len()
                    invariant
                        k <= more@.len(),
                        ready@ == waiting.drop_last() + more@.take(k as int),
                    decreases more@.len() - k,
                {
                    ready.push(more[k]);
                    k += 1;
                }
                proof {
                    assert(more@.take(k as int) =~= more@);
                    let tail = attach_order(docs@, ready@, (steps - 1) as nat);
                    assert(attach_order(docs@, waiting, steps) == seq![row] + tail);
                    assert(before + (seq![row] + tail) =~= before.push(row) + tail);
                    lemma_upstream_first(docs@, before, row);
                }
            },
            None => {},
        }
    }
    proof {
        assert(ready@ =~= Seq::<u32>::empty());
        assert(attach_order(docs@, ready@, (total - (order@.len() - plain)) as nat) =~= Seq::<
            u32,
        >::empty());
        assert(order@ =~= replay_order(docs@));
        assert forall|row: u32| #[trigger] order@.contains(row) <==> row < docs@.len() && anchored(
            docs@,
            row as int,
        ) by {
            if row < docs@.len() && anchored(docs@, row as int) {
                let steps = choose|steps: nat| #[trigger]
                    anchored_within(docs@, row as int, steps);
                lemma_replay_complete(docs@, order@, placed@, row as int, steps);
            }
        }
    }
    order
}

/// A missing anchor among the first rows is the first of all rows.
proof fn lemma_unanchored_stays(docs: Seq<PartDoc>, short: int, long: int)
    requires
        short <= long,
        first_unanchored(docs, short) is Some,
    ensures
        first_unanchored(docs, long) == first_unanchored(docs, short),
    decreases long - short,
{
    if short < long {
        lemma_unanchored_stays(docs, short, long - 1);
    }
}

/// Rows among which none stands on nothing.
pub proof fn lemma_all_anchored(docs: Seq<PartDoc>, count: int, row: int)
    requires
        0 <= row < count,
        first_unanchored(docs, count) is None,
    ensures
        anchored(docs, row),
    decreases count,
{
    if row < count - 1 {
        lemma_all_anchored(docs, count - 1, row);
    }
}

/// Finds the earliest row that stands on nothing.
pub fn check_anchors(docs: &Vec<PartDoc>, order: &Vec<u32>) -> (checked: Result<(), CreationError>)
    requires
        docs@.len() <= u32::MAX,
        forall|row: u32| #[trigger]
            order@.contains(row) <==> row < docs@.len() && anchored(docs@, row as int),
    ensures
        checked == (match first_unanchored(docs@, docs@.len() as int) {
            Some(error) => Err::<(), CreationError>(error),
            None => Ok(()),
        }),
{
    let mut placed: Vec<bool> = Vec::new();
    while placed.len() < docs.len()
        invariant
            placed@.len() <= docs@.len(),
            forall|k: int| #![trigger placed@[k]] 0 <= k < placed@.len() ==> !placed@[k],
        decreases docs@.len() - placed@.len(),
    {
        placed.push(false);
    }
    let mut k: usize = 0;
    while k < order.len()
        invariant
            k <= order@.len(),
            placed@.len() == docs@.len() <= u32::MAX,
            forall|row: u32| #[trigger]
                order@.contains(row) <==> row < docs@.len() && anchored(docs@, row as int),
            forall|i: int|
                #![trigger placed@[i]]
                0 <= i < placed@.len() ==> placed@[i] == order@.take(k as int).contains(i as u32),
        decreases order@.len() - k,
    {
        assert(order@.contains(order@[k as int]));
        let ghost before = placed@;
        placed.set(order[k] as usize, true);
        proof {
            let longer = order@.take(k + 1);
            let shorter = order@.take(k as int);
            assert(longer =~= shorter.push(order@[k as int]));
            assert forall|i: int| #![trigger placed@[i]] 0 <= i < placed@.len() implies placed@[i]
                == longer.contains(i as u32) by {
                assert(before[i] == shorter.contains(i as u32));
                if i == order@[k as int] {
                    assert(longer[k as int] == i as u32);
                }
                if shorter.contains(i as u32) {
                    assert(longer[shorter.index_of(i as u32)] == i as u32);
                }
                if longer.contains(i as u32) && i != order@[k as int] {
                    let at = longer.index_of(i as u32);
                    assert(shorter[at] == i as u32);
                }
            }
        }
        k += 1;
    }
    assert(order@.take(k as int) =~= order@);
    let mut i: usize = 0;
    while i < docs.len()
        invariant
            i <= docs@.len() <= u32::MAX,
            placed@.len() == docs@.len(),
            forall|row: u32| #[trigger]
                order@.contains(row) <==> row < docs@.len() && anchored(docs@, row as int),
            forall|i: int|
                #![trigger placed@[i]]
                0 <= i < placed@.len() ==> placed@[i] == order@.contains(i as u32),
            first_unanchored(docs@, i as int) is None,
        decreases docs@.len() - i,
    {
        if !placed[i] {
            assert(!order@.contains(i as u32));
            proof {
                if parent_in(docs@[i as int]) is None {
                    assert(anchored_within(docs@, i as int, 0));
                }
                assert(first_unanchored(docs@, i + 1) is Some);
                lemma_unanchored_stays(docs@, i + 1, docs@.len() as int);
            }
            match parent_of(&docs[i]) {
                Some(parent) => {
                    return Err(CreationError::MissingPart(parent));
                },
                None => {},
            }
        }
        assert(placed@[i as int] ==> order@.contains(i as u32));
        i += 1;
    }
    Ok(())
}

/// However many rows are back, the rest comes back without any row twice.
proof fn lemma_attach_order(
    docs: Seq<PartDoc>,
    order: Seq<u32>,
    ready: Seq<u32>,
    placed: Seq<bool>,
    steps: nat,
)
    requires
        docs.len() <= u32::MAX,
        parents_listed(docs),
        replaying(docs, order, ready, placed),
        steps + order.len() >= docs.len(),
    ensures
        (order + attach_order(docs, ready, steps)).no_duplicates(),
        forall|row: u32| #[trigger]
            (order + attach_order(docs, ready, steps)).contains(row) <==> row < docs.len()
                && anchored(docs, row as int),
    decreases steps,
{
    if ready.len() == 0 {
        assert(ready =~= Seq::<u32>::empty());
        assert(order + attach_order(docs, ready, steps) =~= order);
        assert forall|row: u32| #[trigger] order.contains(row) <==> row < docs.len() && anchored(
            docs,
            row as int,
        ) by {
            if row < docs.len() && anchored(docs, row as int) {
                let steps = choose|steps: nat| #[trigger]
                    anchored_within(docs, row as int, steps);
                lemma_replay_complete(docs, order, placed, row as int, steps);
            }
        }
    } else {
        lemma_replay_step(docs, order, ready, placed);
        let row = ready.last();
        let waits = ready.drop_last() + extensions(docs, row as int, docs.len() as int);
        lemma_attach_order(
            docs,
            order.push(row),
            waits,
            placed.update(row as int, true),
            (steps - 1) as nat,
        );
        assert(order + attach_order(docs, ready, steps) =~= order.push(row) + attach_order(
            docs,
            waits,
            (steps - 1) as nat,
        ));
    }
}

/// Every part that stands on one that extends nothing comes back exactly once,
/// and no other part does.
pub proof fn standing_parts_come_back_once(docs: Seq<PartDoc>)
    requires
        docs.len() <= u32::MAX,
        parents_listed(docs),
    ensures
        replay_order(docs).no_duplicates(),
        forall|row: u32| #[trigger]
            replay_order(docs).contains(row) <==> row < docs.len() && anchored(docs, row as int),
{
    let order = plain_rows(docs, docs.len() as int);
    let ready = first_extensions(docs, docs.len() as int);
    let placed = Seq::new(docs.len(), |i: int| parent_in(docs[i]) is None);
    lemma_plain_rows(docs, docs.len() as int);
    lemma_first_extensions(docs, docs.len() as int);
    assert forall|row: u32| #[trigger] ready.contains(row) <==> row < docs.len()
        && !placed[row as int] && parent_in(docs[row as int]) is Some && placed[parent_in(
        docs[row as int],
    )->0 as int] by {
        if row < docs.len() && parent_in(docs[row as int]) is Some {
            assert(parent_in(docs[row as int])->0 < docs.len());
        }
    }
    assert forall|k: int| #![trigger placed[k]] 0 <= k < docs.len() && placed[k] implies anchored(
        docs,
        k,
    ) by {
        assert(anchored_within(docs, k, 0));
    }
    lemma_attach_order(docs, order, ready, placed, docs.len());
}

/// A part is refused, by itself, for what measuring it gave; a transmission for
/// an upstream part that is not there, or that stands on another grid.
pub proof fn parts_are_refused_by_row(
    docs: Seq<PartDoc>,
    checks: Seq<Result<(), PartError>>,
    part_frames: Seq<u32>,
    row: int,
)
    requires
        0 <= row < docs.len() <= u32::MAX,
    ensures
        ({
            let fault = part_row_fault(docs, checks, part_frames, row);
            &&& !(docs[row] is Transmission) ==> fault == part_doc_fault(docs[row], checks[row])
            &&& docs[row] is Transmission ==> {
                let parent = docs[row]->parent;
                &&& parent >= docs.len() ==> fault == Some(CreationError::MissingPart(parent))
                &&& parent < docs.len() && part_frames[parent as int] != part_frames[row] ==> fault
                    is Some && fault->0 == CreationError::TransmissionFrame(row as u32)
                &&& parent < docs.len() && part_frames[parent as int] == part_frames[row] ==> fault
                    is None
            }
        }),
{
}

/// The earliest refused part is told.
pub proof fn the_earliest_refused_part_is_told(
    docs: Seq<PartDoc>,
    checks: Seq<Result<(), PartError>>,
    part_frames: Seq<u32>,
    count: int,
    i: int,
)
    requires
        0 <= i < count,
    ensures
        first_part_fault(docs, checks, part_frames, count) is None ==> part_row_fault(
            docs,
            checks,
            part_frames,
            i,
        ) is None,
        part_row_fault(docs, checks, part_frames, i) is Some && first_part_fault(
            docs,
            checks,
            part_frames,
            i,
        ) is None ==> first_part_fault(docs, checks, part_frames, count) == part_row_fault(
            docs,
            checks,
            part_frames,
            i,
        ),
    decreases count,
{
    if i < count - 1 {
        the_earliest_refused_part_is_told(docs, checks, part_frames, count - 1, i);
    }
}

/// A transmission that stands on nothing but transmissions is told by what it
/// names, the earliest one first; a part that extends nothing always stands.
pub proof fn the_earliest_unanchored_part_is_told(docs: Seq<PartDoc>, count: int, i: int)
    requires
        0 <= i < count <= docs.len(),
    ensures
        !(docs[i] is Transmission) ==> anchored(docs, i),
        docs[i] is Transmission && docs[i]->parent < docs.len() ==> (anchored(docs, i) <==> anchored(
            docs,
            docs[i]->parent as int,
        )),
        first_unanchored(docs, count) is None ==> anchored(docs, i),
        !anchored(docs, i) && first_unanchored(docs, i) is None ==> first_unanchored(docs, count)
            == Some(CreationError::MissingPart(docs[i]->parent)),
    decreases count,
{
    if !(docs[i] is Transmission) {
        assert(anchored_within(docs, i, 0));
    } else {
        let parent = docs[i]->parent as int;
        if anchored(docs, parent) {
            let steps = choose|steps: nat| #[trigger] anchored_within(docs, parent, steps);
            assert(anchored_within(docs, i, steps + 1));
        }
        if anchored(docs, i) {
            let steps = choose|steps: nat| #[trigger] anchored_within(docs, i, steps);
            assert(steps > 0 && anchored_within(docs, parent, (steps - 1) as nat));
        }
    }
    if i < count - 1 {
        the_earliest_unanchored_part_is_told(docs, count - 1, i);
    }
}

/// Parts that extend nothing come back first, in the order of their rows.
pub proof fn plain_parts_come_back_first(docs: Seq<PartDoc>, count: int, row: u32)
    requires
        0 <= count <= docs.len() <= u32::MAX,
    ensures
        plain_rows(docs, count).contains(row) <==> row < count && !(docs[row as int] is Transmission),
        forall|i: int, j: int|
            #![trigger plain_rows(docs, count)[i], plain_rows(docs, count)[j]]
            0 <= i < j < plain_rows(docs, count).len() ==> plain_rows(docs, count)[i] < plain_rows(
                docs,
                count,
            )[j],
        forall|i: int|
            #![trigger plain_rows(docs, count)[i]]
            0 <= i < plain_rows(docs, count).len() ==> plain_rows(docs, count)[i] < count,
    decreases count,
{
    if count > 0 {
        plain_parts_come_back_first(docs, count - 1, row);
        let before = plain_rows(docs, count - 1);
        let now = plain_rows(docs, count);
        assert forall|i: int| #![trigger now[i]] 0 <= i < now.len() implies now[i] < count && (i
            < before.len() ==> now[i] == before[i]) by {
            if i < before.len() {
                assert(before[i] < count - 1);
            }
        }
        assert forall|i: int, j: int| #![trigger now[i], now[j]] 0 <= i < j < now.len() implies now[i]
            < now[j] by {
            assert(now[i] == before[i]);
            assert(before[i] < count - 1);
            if j < before.len() {
                assert(now[j] == before[j]);
            }
        }
        broadcast use vstd::seq_lib::group_seq_properties;

    }
}

} // verus!
