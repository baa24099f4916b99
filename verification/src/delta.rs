//! The delta of a new stream against the signatures of an old one: a scan of
//! the new stream that replaces each block known from the old stream by a
//! reference to it.

use crate::signature::{
    md4_digest, md4_of, same_digest, signature_views, BlockSignature, SignatureModel,
};
use crate::weak_sum::{checksum, lemma_update_moves_window, packed, WeakSum};
use std::collections::HashMap;
use vstd::prelude::*;

verus! {

/// One step of a delta.
#[derive(PartialEq, Debug)]
pub enum Command {
    /// Bytes to take over as they are.
    Raw { data: Vec<u8> },
    /// The block of the old stream with this index, to be copied.
    CopyBlock { index: usize },
}

/// What a command says, as plain values.
pub enum CommandView {
    Raw { data: Seq<u8> },
    CopyBlock { index: nat },
}

impl View for Command {
    type V = CommandView;

    open spec fn view(&self) -> CommandView {
        match self {
            Command::Raw { data } => CommandView::Raw { data: data@ },
            Command::CopyBlock { index } => CommandView::CopyBlock { index: *index as nat },
        }
    }
}

/// What each command of `commands` says, in order.
pub open spec fn command_views(commands: Seq<Command>) -> Seq<CommandView> {
    commands.map_values(|c: Command| c@)
}

/// What the block map knows of one block of the old stream.
#[derive(Clone, Copy, Debug)]
pub struct BlockInfo {
    pub index: usize,
    pub digest: [u8; 16],
}

/// What a block map entry says, as plain values.
pub struct Entry {
    pub index: nat,
    pub digest: Seq<u8>,
}

impl View for BlockInfo {
    type V = Entry;

    open spec fn view(&self) -> Entry {
        Entry { index: self.index as nat, digest: self.digest@ }
    }
}

impl BlockInfo {
    /// The entry for the block at position `index` with the digest `digest`.
    pub fn new(index: usize, digest: [u8; 16]) -> (info: BlockInfo)
        ensures
            info.index == index,
            info.digest == digest,
    {
        BlockInfo { index, digest }
    }
}

/// The block map of a sequence of signatures: under the 32-bit form of each
/// checksum, the position and the digest of the last signature that has this
/// checksum.
pub open spec fn block_map_of(signatures: Seq<SignatureModel>) -> Map<u32, Entry>
    decreases signatures.len(),
{
    if signatures.len() == 0 {
        Map::empty()
    } else {
        block_map_of(signatures.drop_last()).insert(
            packed(signatures.last().weak),
            Entry { index: (signatures.len() - 1) as nat, digest: signatures.last().strong },
        )
    }
}

/// Finds a block of the old stream by its rolling checksum.
pub struct BlockMap {
    map: HashMap<u32, BlockInfo>,
}

impl View for BlockMap {
    type V = Map<u32, Entry>;

    closed spec fn view(&self) -> Map<u32, Entry> {
        self.map@.map_values(|info: BlockInfo| info@)
    }
}

impl BlockMap {
    /// The entry for the checksum `weak`, if there is one.
    pub fn get(&self, weak: &WeakSum) -> (found: Option<BlockInfo>)
        ensures
            found.is_some() == self@.contains_key(packed(weak@)),
            found.is_some() ==> found.unwrap()@ == self@[packed(weak@)],
    {
        let key: u32 = weak.to_u32();
        match self.map.get(&key) {
            Some(info) => Some(*info),
            None => None,
        }
    }
}

/// Builds the block map of `signatures`, whose positions are the indices of
/// the blocks. Where two blocks have the same checksum, the later one stays.
pub fn block_map_from_signatures(signatures: Vec<BlockSignature>) -> (block_map: BlockMap)
    ensures
        block_map@ == block_map_of(signature_views(signatures@)),
{
    let ghost views = signature_views(signatures@);
    let mut map: HashMap<u32, BlockInfo> = HashMap::new();
    let mut i: usize = 0;
    while i < signatures.len()
        invariant
            i <= signatures.len(),
            views == signature_views(signatures@),
            map@.map_values(|info: BlockInfo| info@) == block_map_of(views.take(i as int)),
        decreases signatures.len() - i,
    {
        let info = BlockInfo::new(i, signatures[i].strong);
        let key: u32 = signatures[i].weak.to_u32();
        proof {
            assert(views.take(i + 1).drop_last() == views.take(i as int));
            assert(map@.insert(key, info).map_values(|info: BlockInfo| info@) == map@.map_values(
                |info: BlockInfo| info@,
            ).insert(key, info@));
        }
        map.insert(key, info);
        i += 1;
    }
    proof {
        assert(views.take(signatures.len() as int) == views);
    }
    BlockMap { map }
}

/// The last `block_size` bytes of `buffer`: the window that the scan looks at.
pub open spec fn window(buffer: Seq<u8>, block_size: nat) -> Seq<u8>
    recommends
        buffer.len() >= block_size,
{
    buffer.subrange(buffer.len() - block_size, buffer.len() as int)
}

/// Whether the block map confirms `bytes` as a block of the old stream: it
/// has an entry for their checksum, and the entry holds their digest.
pub open spec fn confirmed(block_map: Map<u32, Entry>, bytes: Seq<u8>) -> bool {
    let key = packed(checksum(bytes));
    block_map.contains_key(key) && block_map[key].digest == md4_of(bytes)
}

/// What the scan emits once the window of `buffer` has been found to hold
/// the block `index` of the old stream: the bytes before the window, if there
/// are any, as one literal run, then the reference to the block.
pub open spec fn emitted_on_match(buffer: Seq<u8>, block_size: nat, index: nat) -> Seq<
    CommandView,
> {
    let begin = buffer.len() - block_size;
    let copy = CommandView::CopyBlock { index };
    if begin > 0 {
        seq![CommandView::Raw { data: buffer.take(begin) }, copy]
    } else {
        seq![copy]
    }
}

/// One byte of the new stream: what the scan emits when `byte` arrives while
/// `buffer` holds the bytes read since the last match, and the buffer after
/// it. The buffer grows until its window is confirmed; then the commands are
/// emitted and the buffer starts empty again.
pub open spec fn fed(block_map: Map<u32, Entry>, block_size: nat, buffer: Seq<u8>, byte: u8) -> (
    Seq<CommandView>,
    Seq<u8>,
) {
    let grown = buffer.push(byte);
    if grown.len() >= block_size && confirmed(block_map, window(grown, block_size)) {
        let index = block_map[packed(checksum(window(grown, block_size)))].index;
        (emitted_on_match(grown, block_size, index), Seq::empty())
    } else {
        (Seq::empty(), grown)
    }
}

/// The scan of `data`, byte by byte from an empty buffer: the commands
/// emitted so far, and the buffer of bytes that no command covers yet.
pub open spec fn scanned(block_map: Map<u32, Entry>, block_size: nat, data: Seq<u8>) -> (
    Seq<CommandView>,
    Seq<u8>,
)
    decreases data.len(),
{
    if data.len() == 0 {
        (Seq::empty(), Seq::empty())
    } else {
        let before = scanned(block_map, block_size, data.drop_last());
        let step = fed(block_map, block_size, before.1, data.last());
        (before.0 + step.0, step.1)
    }
}

/// The delta of `data` against a block map: the commands of the scan, then
/// one literal run with what the buffer holds at the end of the stream, even
/// if that is nothing.
pub open spec fn delta_of(block_map: Map<u32, Entry>, block_size: nat, data: Seq<u8>) -> Seq<
    CommandView,
> {
    let end = scanned(block_map, block_size, data);
    end.0.push(CommandView::Raw { data: end.1 })
}

/// The two states of a scan that still reads.
#[derive(Clone, Copy, Debug, PartialEq, Eq, Structural)]
pub enum Phase {
    /// The buffer is shorter than a block.
    Filling,
    /// The buffer holds a block or more, and the checksum follows its window.
    Matching,
}

/// A scan of a new stream against a block map, fed one byte at a time.
pub struct DeltaScanner<'a> {
    block_map: &'a BlockMap,
    block_size: u16,
    buf: Vec<u8>,
    weak_sum: WeakSum,
}

impl<'a> DeltaScanner<'a> {
    /// The block map that the scan looks blocks up in.
    pub closed spec fn block_map(&self) -> Map<u32, Entry> {
        self.block_map@
    }

    /// The size of the blocks.
    pub closed spec fn block_size(&self) -> u16 {
        self.block_size
    }

    /// The bytes read since the last match.
    pub closed spec fn buffer(&self) -> Seq<u8> {
        self.buf@
    }

    /// The block size is positive, and once the buffer holds a block the
    /// stored checksum is that of its window.
    pub closed spec fn well_formed(&self) -> bool {
        &&& self.block_size > 0
        &&& self.buf@.len() >= self.block_size ==> self.weak_sum@ == checksum(
            window(self.buf@, self.block_size as nat),
        )
    }

    /// A scan that has read nothing yet.
    pub fn new(block_map: &'a BlockMap, block_size: u16) -> (scanner: Self)
        requires
            block_size > 0,
        ensures
            scanner.well_formed(),
            scanner.block_map() == block_map@,
            scanner.block_size() == block_size,
            scanner.buffer() == Seq::<u8>::empty(),
    {
        DeltaScanner { block_map, block_size, buf: Vec::new(), weak_sum: WeakSum::default() }
    }

    /// The state of the scan.
    pub fn phase(&self) -> (phase: Phase)
        ensures
            phase == Phase::Filling <==> self.buffer().len() < self.block_size(),
    {
        if self.buf.len() < self.block_size as usize {
            Phase::Filling
        } else {
            Phase::Matching
        }
    }

    /// Takes `byte` into the buffer and moves the checksum on. Returns the
    /// entry of the block map for the checksum of the window, if the buffer
    /// holds a window and the map has such an entry: a candidate, which the
    /// digest of the window has yet to confirm.
    pub fn advance(&mut self, byte: u8) -> (candidate: Option<BlockInfo>)
        requires
            old(self).well_formed(),
        ensures
            final(self).well_formed(),
            final(self).block_map() == old(self).block_map(),
            final(self).block_size() == old(self).block_size(),
            final(self).buffer() == old(self).buffer().push(byte),
            candidate.is_some() <==> final(self).buffer().len() >= final(self).block_size()
                && final(self).block_map().contains_key(
                packed(checksum(window(final(self).buffer(), final(self).block_size() as nat))),
            ),
            candidate.is_some() ==> candidate.unwrap()@ == final(self).block_map()[packed(
                checksum(window(final(self).buffer(), final(self).block_size() as nat)),
            )],
    {
        let ghost before = self.buf@;
        let ghost size = self.block_size as nat;
        self.buf.push(byte);
        let len: usize = self.buf.len();
        let block_len: usize = self.block_size as usize;
        if len < block_len {
            return None;
        } else if len == block_len {
            self.weak_sum = WeakSum::from(self.buf.as_slice());
            proof {
                assert(window(self.buf@, size) == self.buf@);
            }
        } else {
            let old_byte: u8 = self.buf[len - block_len - 1];
            proof {
                let left = window(before, size);
                assert(left[0] == old_byte);
                assert(left.drop_first().push(byte) == window(self.buf@, size));
                lemma_update_moves_window(left, byte);
            }
            self.weak_sum.update(self.block_size, old_byte, byte);
        }
        self.block_map.get(&self.weak_sum)
    }

    /// Settles a candidate with the digest of the window. Where `digest` is
    /// the digest that the candidate holds, the bytes before the window leave
    /// as one literal run, if there are any, the reference to the candidate's
    /// block follows, and the buffer is empty afterwards. Where it is not,
    /// nothing is emitted and nothing changes.
    pub fn settle(&mut self, candidate: BlockInfo, digest: [u8; 16]) -> (commands: Vec<Command>)
        requires
            old(self).well_formed(),
            old(self).buffer().len() >= old(self).block_size(),
        ensures
            final(self).well_formed(),
            final(self).block_map() == old(self).block_map(),
            final(self).block_size() == old(self).block_size(),
            digest@ == candidate.digest@ ==> final(self).buffer() == Seq::<u8>::empty()
                && command_views(commands@) == emitted_on_match(
                old(self).buffer(),
                old(self).block_size() as nat,
                candidate.index as nat,
            ),
            digest@ != candidate.digest@ ==> final(self).buffer() == old(self).buffer()
                && commands@.len() == 0,
    {
        let mut commands: Vec<Command> = Vec::new();
        if !same_digest(&digest, &candidate.digest) {
            return commands;
        }
        let ghost before = self.buf@;
        let block_begin: usize = self.buf.len() - self.block_size as usize;
        self.buf.truncate(block_begin);
        if block_begin > 0 {
            let mut data: Vec<u8> = Vec::new();
            std::mem::swap(&mut data, &mut self.buf);
            commands.push(Command::Raw { data });
        }
        commands.push(Command::CopyBlock { index: candidate.index });
        proof {
            assert(command_views(commands@) == emitted_on_match(
                before,
                self.block_size as nat,
                candidate.index as nat,
            ));
        }
        commands
    }

    /// Reads one byte of the new stream and returns the commands that are
    /// due with it: none while the window is not confirmed, else the literal
    /// run before the window, if there is one, and the reference to the block.
    pub fn feed(&mut self, byte: u8) -> (commands: Vec<Command>)
        requires
            old(self).well_formed(),
        ensures
            final(self).well_formed(),
            final(self).block_map() == old(self).block_map(),
            final(self).block_size() == old(self).block_size(),
            (command_views(commands@), final(self).buffer()) == fed(
                old(self).block_map(),
                old(self).block_size() as nat,
                old(self).buffer(),
                byte,
            ),
    {
        match self.advance(byte) {
            Some(candidate) => {
                let len: usize = self.buf.len();
                let digest = md4_digest(
                    vstd::slice::slice_subrange(
                        self.buf.as_slice(),
                        len - self.block_size as usize,
                        len,
                    ),
                );
                self.settle(candidate, digest)
            },
            None => Vec::new(),
        }
    }

    /// Ends the scan at the end of the stream: what the buffer holds leaves
    /// as the last literal run, which may be empty.
    pub fn finish(self) -> (last: Command)
        ensures
            last@ == (CommandView::Raw { data: self.buffer() }),
    {
        Command::Raw { data: self.buf }
    }
}

/// The delta of `data` against the blocks that `signatures` describe, with
/// the position of each signature as the index of its block.
pub fn delta(signatures: Vec<BlockSignature>, data: &[u8], block_size: u16) -> (commands: Vec<
    Command,
>)
    requires
        block_size > 0,
    ensures
        command_views(commands@) == delta_of(
            block_map_of(signature_views(signatures@)),
            block_size as nat,
            data@,
        ),
{
    let block_map = block_map_from_signatures(signatures);
    let mut scanner = DeltaScanner::new(&block_map, block_size);
    let mut commands: Vec<Command> = Vec::new();
    let mut i: usize = 0;
    while i < data.len()
        invariant
            i <= data.len(),
            scanner.well_formed(),
            scanner.block_map() == block_map@,
            scanner.block_size() == block_size,
            (command_views(commands@), scanner.buffer()) == scanned(
                block_map@,
                block_size as nat,
                data@.take(i as int),
            ),
        decreases data.len() - i,
    {
        let mut due = scanner.feed(data[i]);
        proof {
            assert(data@.take(i + 1).drop_last() == data@.take(i as int));
            assert(command_views(commands@ + due@) == command_views(commands@) + command_views(
                due@,
            ));
        }
        commands.append(&mut due);
        i += 1;
    }
    proof {
        assert(data@.take(data.len() as int) == data@);
    }
    let ghost scan_end = commands@;
    commands.push(scanner.finish());
    proof {
        assert(command_views(commands@) == command_views(scan_end).push(commands@.last()@));
    }
    commands
}

} // verus!
