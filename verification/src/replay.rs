//! What a delta means: the stream that its commands rebuild from the old
//! stream, and what holds of every delta that a scan produces.

use crate::chunker::block;
use crate::delta::{block_map_of, confirmed, delta_of, fed, scanned, window, CommandView, Entry};
use crate::signature::{signature_of, signed, SignatureModel};
use crate::weak_sum::{checksum, lemma_packed_injective, packed};
use vstd::prelude::*;

verus! {

/// The bytes that one command stands for: its own bytes for a literal run,
/// the block of the old stream for a reference.
pub open spec fn patch(command: CommandView, old_data: Seq<u8>, block_size: nat) -> Seq<u8> {
    match command {
        CommandView::Raw { data } => data,
        CommandView::CopyBlock { index } => block(old_data, block_size, index as int),
    }
}

/// The stream that `commands` rebuild from `old_data`: what each command
/// stands for, one after another.
pub open spec fn replayed(commands: Seq<CommandView>, old_data: Seq<u8>, block_size: nat) -> Seq<
    u8,
>
    decreases commands.len(),
{
    if commands.len() == 0 {
        Seq::empty()
    } else {
        replayed(commands.drop_last(), old_data, block_size) + patch(
            commands.last(),
            old_data,
            block_size,
        )
    }
}

/// The `len` bytes of `data` that start at `start`.
pub open spec fn stretch(data: Seq<u8>, start: int, len: nat) -> Seq<u8> {
    data.subrange(start, start + len)
}

/// No stretch of `new_data` is taken for a block of `old_data` that it is
/// not: where a block and a stretch of its length have the same checksum and
/// the same digest, they hold the same bytes.
pub open spec fn signatures_tell_apart(old_data: Seq<u8>, new_data: Seq<u8>, block_size: nat) -> bool {
    forall|i: int, j: int|
        0 <= i < old_data.len() / block_size && 0 <= j && j + block_size <= new_data.len()
            && signed(#[trigger] block(old_data, block_size, i)) == signed(
            #[trigger] stretch(new_data, j, block_size),
        ) ==> block(old_data, block_size, i) == stretch(new_data, j, block_size)
}

/// No stretch of `new_data` has the checksum and the digest of a block of
/// `old_data`.
pub open spec fn nothing_in_common(old_data: Seq<u8>, new_data: Seq<u8>, block_size: nat) -> bool {
    forall|i: int, j: int|
        0 <= i < old_data.len() / block_size && 0 <= j && j + block_size <= new_data.len()
            ==> signed(#[trigger] block(old_data, block_size, i)) != signed(
            #[trigger] stretch(new_data, j, block_size),
        )
}

/// Replaying two sequences of commands one after the other gives the two
/// replayed streams one after the other.
pub proof fn lemma_replayed_concat(
    first: Seq<CommandView>,
    second: Seq<CommandView>,
    old_data: Seq<u8>,
    block_size: nat,
)
    ensures
        replayed(first + second, old_data, block_size) == replayed(first, old_data, block_size)
            + replayed(second, old_data, block_size),
    decreases second.len(),
{
    if second.len() == 0 {
        assert(first + second == first);
    } else {
        lemma_replayed_concat(first, second.drop_last(), old_data, block_size);
        assert((first + second).drop_last() == first + second.drop_last());
    }
}

/// One command alone rebuilds what it stands for.
pub proof fn lemma_replayed_one(command: CommandView, old_data: Seq<u8>, block_size: nat)
    ensures
        replayed(seq![command], old_data, block_size) == patch(command, old_data, block_size),
{
    assert(seq![command].drop_last() == Seq::<CommandView>::empty());
    assert(replayed(seq![command], old_data, block_size) == replayed(
        Seq::<CommandView>::empty(),
        old_data,
        block_size,
    ) + patch(command, old_data, block_size));
    assert(Seq::<u8>::empty() + patch(command, old_data, block_size) == patch(
        command,
        old_data,
        block_size,
    ));
}

/// Last write wins: the block map has an entry under a key exactly where
/// some signature has a checksum with that 32-bit form, and the entry is that
/// of the last such signature.
pub proof fn lemma_block_map_last_wins(signatures: Seq<SignatureModel>, key: u32)
    ensures
        block_map_of(signatures).contains_key(key) <==> exists|i: int|
            0 <= i < signatures.len() && packed(#[trigger] signatures[i].weak) == key,
        block_map_of(signatures).contains_key(key) ==> {
            let entry = block_map_of(signatures)[key];
            &&& entry.index < signatures.len()
            &&& packed(signatures[entry.index as int].weak) == key
            &&& entry.digest == signatures[entry.index as int].strong
            &&& forall|i: int|
                entry.index < i < signatures.len() ==> packed(#[trigger] signatures[i].weak)
                    != key
        },
    decreases signatures.len(),
{
    if signatures.len() > 0 {
        let earlier = signatures.drop_last();
        lemma_block_map_last_wins(earlier, key);
        let last = signatures.len() - 1;
        if packed(signatures.last().weak) == key {
            assert(packed(signatures[last].weak) == key);
        } else if block_map_of(earlier).contains_key(key) {
            let i = choose|i: int| 0 <= i < earlier.len() && packed(#[trigger] earlier[i].weak) == key;
            assert(packed(signatures[i].weak) == key);
            let entry = block_map_of(earlier)[key];
            assert(signatures[entry.index as int] == earlier[entry.index as int]);
            assert forall|i: int| entry.index < i < signatures.len() implies packed(
                #[trigger] signatures[i].weak,
            ) != key by {
                if i < last {
                    assert(signatures[i] == earlier[i]);
                }
            }
        } else {
            assert forall|i: int| 0 <= i < signatures.len() implies packed(
                #[trigger] signatures[i].weak,
            ) != key by {
                if i < last {
                    assert(signatures[i] == earlier[i]);
                }
            }
        }
    }
}

/// A block that the map of the signatures of `old_data` confirms for `bytes`
/// is a block of `old_data` with the checksum and the digest of `bytes`.
pub proof fn lemma_confirmed_is_signed(old_data: Seq<u8>, block_size: nat, bytes: Seq<u8>)
    requires
        block_size > 0,
        confirmed(block_map_of(signature_of(old_data, block_size)), bytes),
    ensures
        ({
            let block_map = block_map_of(signature_of(old_data, block_size));
            let index = block_map[packed(checksum(bytes))].index;
            &&& index < old_data.len() / block_size
            &&& signed(block(old_data, block_size, index as int)) == signed(bytes)
        }),
{
    let signatures = signature_of(old_data, block_size);
    let key = packed(checksum(bytes));
    lemma_block_map_last_wins(signatures, key);
    let index = block_map_of(signatures)[key].index;
    lemma_packed_injective(signatures[index as int].weak, checksum(bytes));
}

/// The commands of a scan, replayed, and the buffer after them give back the
/// bytes that the scan has read.
pub proof fn lemma_scan_covers(old_data: Seq<u8>, new_data: Seq<u8>, block_size: nat)
    requires
        block_size > 0,
        signatures_tell_apart(old_data, new_data, block_size),
    ensures
        ({
            let end = scanned(block_map_of(signature_of(old_data, block_size)), block_size, new_data);
            replayed(end.0, old_data, block_size) + end.1 == new_data
        }),
    decreases new_data.len(),
{
    let block_map = block_map_of(signature_of(old_data, block_size));
    if new_data.len() > 0 {
        let earlier = new_data.drop_last();
        assert(signatures_tell_apart(old_data, earlier, block_size)) by {
            assert forall|i: int, j: int|
                0 <= i < old_data.len() / block_size && 0 <= j && j + block_size <= earlier.len()
                    && signed(#[trigger] block(old_data, block_size, i)) == signed(
                    #[trigger] stretch(earlier, j, block_size),
                ) implies block(old_data, block_size, i) == stretch(earlier, j, block_size) by {
                assert(stretch(earlier, j, block_size) == stretch(new_data, j, block_size));
            }
        }
        lemma_scan_covers(old_data, earlier, block_size);
        let before = scanned(block_map, block_size, earlier);
        let grown = before.1.push(new_data.last());
        let step = fed(block_map, block_size, before.1, new_data.last());
        let read = replayed(before.0, old_data, block_size);
        assert(read + grown == new_data) by {
            assert(read + grown == (read + before.1).push(new_data.last()));
            assert(earlier.push(new_data.last()) == new_data);
        }
        if grown.len() >= block_size && confirmed(block_map, window(grown, block_size)) {
            let bytes = window(grown, block_size);
            let index = block_map[packed(checksum(bytes))].index;
            lemma_confirmed_is_signed(old_data, block_size, bytes);
            assert(bytes == stretch(new_data, new_data.len() - block_size, block_size));
            assert(block(old_data, block_size, index as int) == bytes);
            let begin = grown.len() - block_size;
            assert(replayed(step.0, old_data, block_size) == grown) by {
                let copy = CommandView::CopyBlock { index };
                lemma_replayed_one(copy, old_data, block_size);
                if begin > 0 {
                    let raw = CommandView::Raw { data: grown.take(begin) };
                    lemma_replayed_one(raw, old_data, block_size);
                    lemma_replayed_concat(seq![raw], seq![copy], old_data, block_size);
                    assert(seq![raw] + seq![copy] == seq![raw, copy]);
                    assert(grown.take(begin) + bytes == grown);
                } else {
                    assert(bytes == grown);
                }
            }
            lemma_replayed_concat(before.0, step.0, old_data, block_size);
            assert(read + grown + Seq::<u8>::empty() == new_data);
        }
    } else {
        assert(replayed(Seq::<CommandView>::empty(), old_data, block_size) + Seq::<u8>::empty()
            == new_data);
    }
}

/// Round trip: the delta of a new stream against the signatures of an old
/// one, replayed on the old stream, is the new stream, byte for byte. The
/// scan knows a block by its checksum and its digest alone, so this holds
/// where those two tell the blocks of the old stream apart from the stretches
/// of the new one.
pub proof fn lemma_round_trip(old_data: Seq<u8>, new_data: Seq<u8>, block_size: nat)
    requires
        block_size > 0,
        signatures_tell_apart(old_data, new_data, block_size),
    ensures
        replayed(
            delta_of(block_map_of(signature_of(old_data, block_size)), block_size, new_data),
            old_data,
            block_size,
        ) == new_data,
{
    let end = scanned(block_map_of(signature_of(old_data, block_size)), block_size, new_data);
    lemma_scan_covers(old_data, new_data, block_size);
    let tail = CommandView::Raw { data: end.1 };
    assert(end.0.push(tail).drop_last() == end.0);
}

/// Where the block map confirms no stretch of `data`, the scan emits nothing
/// and the delta is one literal run with all of `data`.
pub proof fn lemma_unconfirmed_is_raw(block_map: Map<u32, Entry>, block_size: nat, data: Seq<u8>)
    requires
        forall|j: int|
            0 <= j && j + block_size <= data.len() ==> !confirmed(
                block_map,
                #[trigger] stretch(data, j, block_size),
            ),
    ensures
        scanned(block_map, block_size, data) == (Seq::<CommandView>::empty(), data),
        delta_of(block_map, block_size, data) == seq![CommandView::Raw { data }],
    decreases data.len(),
{
    if data.len() > 0 {
        let earlier = data.drop_last();
        assert forall|j: int| 0 <= j && j + block_size <= earlier.len() implies !confirmed(
            block_map,
            #[trigger] stretch(earlier, j, block_size),
        ) by {
            assert(stretch(earlier, j, block_size) == stretch(data, j, block_size));
        }
        lemma_unconfirmed_is_raw(block_map, block_size, earlier);
        assert(earlier.push(data.last()) == data);
        if data.len() >= block_size {
            assert(window(data, block_size) == stretch(data, data.len() - block_size, block_size));
        }
        assert(Seq::<CommandView>::empty() + Seq::<CommandView>::empty() == Seq::<
            CommandView,
        >::empty());
    }
    assert(Seq::<CommandView>::empty().push(CommandView::Raw { data }) == seq![
        CommandView::Raw { data },
    ]);
}

/// No match: where no stretch of the new stream has the checksum and the
/// digest of a block of the old stream, the delta is one literal run that
/// holds the whole new stream.
pub proof fn lemma_no_match_is_raw(old_data: Seq<u8>, new_data: Seq<u8>, block_size: nat)
    requires
        block_size > 0,
        nothing_in_common(old_data, new_data, block_size),
    ensures
        delta_of(block_map_of(signature_of(old_data, block_size)), block_size, new_data) == seq![
            CommandView::Raw { data: new_data },
        ],
{
    let block_map = block_map_of(signature_of(old_data, block_size));
    assert forall|j: int| 0 <= j && j + block_size <= new_data.len() implies !confirmed(
        block_map,
        #[trigger] stretch(new_data, j, block_size),
    ) by {
        let bytes = stretch(new_data, j, block_size);
        if confirmed(block_map, bytes) {
            lemma_confirmed_is_signed(old_data, block_size, bytes);
            let index = block_map[packed(checksum(bytes))].index;
            assert(signed(block(old_data, block_size, index as int)) == signed(bytes));
        }
    }
    lemma_unconfirmed_is_raw(block_map, block_size, new_data);
}

/// Every literal run among `commands` holds at least one byte and stands
/// directly before a reference to a block.
pub open spec fn runs_lead_to_copies(commands: Seq<CommandView>) -> bool {
    forall|k: int|
        0 <= k < commands.len() && (#[trigger] commands[k]) is Raw ==> {
            &&& commands[k]->data.len() > 0
            &&& k + 1 < commands.len()
            &&& commands[k + 1] is CopyBlock
        }
}

/// A scan emits a literal run only together with the reference that ends it,
/// and only with bytes in it.
pub proof fn lemma_scan_shape(block_map: Map<u32, Entry>, block_size: nat, data: Seq<u8>)
    ensures
        runs_lead_to_copies(scanned(block_map, block_size, data).0),
    decreases data.len(),
{
    if data.len() > 0 {
        lemma_scan_shape(block_map, block_size, data.drop_last());
        let before = scanned(block_map, block_size, data.drop_last());
        let step = fed(block_map, block_size, before.1, data.last());
        let all = before.0 + step.0;
        assert forall|k: int| 0 <= k < all.len() && (#[trigger] all[k]) is Raw implies {
            &&& all[k]->data.len() > 0
            &&& k + 1 < all.len()
            &&& all[k + 1] is CopyBlock
        } by {
            if k < before.0.len() {
                assert(all[k] == before.0[k]);
                assert(all[k + 1] == before.0[k + 1]);
            } else {
                assert(all[k] == step.0[k - before.0.len()]);
                assert(all[k + 1] == step.0[k + 1 - before.0.len()]);
            }
        }
    }
}

/// The shape of a delta: it ends with a literal run, every literal run before
/// the last one holds at least one byte and stands directly before a
/// reference, and so no two literal runs stand side by side.
pub proof fn lemma_delta_shape(block_map: Map<u32, Entry>, block_size: nat, data: Seq<u8>)
    ensures
        ({
            let commands = delta_of(block_map, block_size, data);
            &&& commands.len() > 0
            &&& commands.last() is Raw
            &&& runs_lead_to_copies(commands.drop_last())
        }),
{
    lemma_scan_shape(block_map, block_size, data);
    let end = scanned(block_map, block_size, data);
    assert(end.0.push(CommandView::Raw { data: end.1 }).drop_last() == end.0);
}

/// A match at the end of the stream: where the last byte completes a window
/// that the block map confirms, the delta ends with the reference to that
/// block and, after it, a literal run that holds nothing.
pub proof fn lemma_match_at_end_leaves_empty_run(
    block_map: Map<u32, Entry>,
    block_size: nat,
    data: Seq<u8>,
)
    requires
        data.len() > 0,
        ({
            let grown = scanned(block_map, block_size, data.drop_last()).1.push(data.last());
            grown.len() >= block_size && confirmed(block_map, window(grown, block_size))
        }),
    ensures
        ({
            let commands = delta_of(block_map, block_size, data);
            let grown = scanned(block_map, block_size, data.drop_last()).1.push(data.last());
            &&& commands.len() >= 2
            &&& commands.last() == (CommandView::Raw { data: Seq::empty() })
            &&& commands[commands.len() - 2] == (CommandView::CopyBlock {
                index: block_map[packed(checksum(window(grown, block_size)))].index,
            })
        }),
{
}

} // verus!
