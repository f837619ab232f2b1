//! Audio files: the index and the data sections of a bank, taken apart and put together.

use vstd::prelude::*;

use crate::bank::{
    alignment_in, DATASection, DIDXDescriptor, DIDXSection, Section, SectionBody, SectionContent,
    SectionData, Soundbank,
};
use crate::error::{StorageError, StorageFault};
use crate::seqs::{first_where, lemma_first_where, lemma_first_where_points};

verus! {

/// Audio files by id, as plain data.
pub open spec fn wems_view(wems: Seq<(u32, Vec<u8>)>) -> Seq<(u32, Seq<u8>)> {
    wems.map_values(|w: (u32, Vec<u8>)| (w.0, w.1@))
}

// ---------------------------------------------------------------------------
// Order
// ---------------------------------------------------------------------------
/// The file put behind the last one with no greater id.
pub open spec fn placed(wems: Seq<(u32, Seq<u8>)>, wem: (u32, Seq<u8>)) -> Seq<(u32, Seq<u8>)>
    decreases wems.len(),
{
    if wems.len() == 0 || wems.last().0 <= wem.0 {
        wems.push(wem)
    } else {
        placed(wems.drop_last(), wem).push(wems.last())
    }
}

/// The files in ascending order of their ids; files with the same id keep their order.
pub open spec fn sorted_by_id(wems: Seq<(u32, Seq<u8>)>) -> Seq<(u32, Seq<u8>)>
    decreases wems.len(),
{
    if wems.len() == 0 {
        Seq::empty()
    } else {
        placed(sorted_by_id(wems.drop_last()), wems.last())
    }
}

/// Do the ids ascend?
pub open spec fn ids_ascend(wems: Seq<(u32, Seq<u8>)>) -> bool {
    forall|i: int, j: int| 0 <= i <= j < wems.len() ==> wems[i].0 <= wems[j].0
}

/// The files with one id, in their order.
pub open spec fn files_of(wems: Seq<(u32, Seq<u8>)>, id: u32) -> Seq<(u32, Seq<u8>)>
    decreases wems.len(),
{
    if wems.len() == 0 {
        Seq::empty()
    } else if wems.last().0 == id {
        files_of(wems.drop_last(), id).push(wems.last())
    } else {
        files_of(wems.drop_last(), id)
    }
}

proof fn lemma_placed(wems: Seq<(u32, Seq<u8>)>, wem: (u32, Seq<u8>), id: u32)
    requires
        ids_ascend(wems),
    ensures
        ids_ascend(placed(wems, wem)),
        placed(wems, wem).len() == wems.len() + 1,
        forall|i: int|
            0 <= i < placed(wems, wem).len() ==> (#[trigger] placed(wems, wem)[i]).0 <= wem.0 || (
            wems.len() > 0 && placed(wems, wem)[i].0 <= wems.last().0),
        files_of(placed(wems, wem), id) == (if wem.0 == id {
            files_of(wems, id).push(wem)
        } else {
            files_of(wems, id)
        }),
    decreases wems.len(),
{
    let after = placed(wems, wem);
    if wems.len() == 0 || wems.last().0 <= wem.0 {
        assert(after.drop_last() =~= wems);
    } else {
        let front = wems.drop_last();
        lemma_placed(front, wem, id);
        assert(after.drop_last() =~= placed(front, wem));
        assert forall|i: int| 0 <= i < placed(front, wem).len() implies (#[trigger] placed(
            front,
            wem,
        )[i]).0 <= wems.last().0 by {
            if front.len() > 0 {
                assert(front.last() == wems[wems.len() - 2]);
            }
        }
        if wem.0 == id {
            // The last file has a greater id, so it is not among those of the new file's id.
            assert(files_of(wems, id) == files_of(front, id));
        }
    }
}

/// Sorting orders the files by their ids, loses and adds none, and keeps the order of files with
/// the same id.
pub proof fn lemma_sorted_by_id(wems: Seq<(u32, Seq<u8>)>)
    ensures
        ids_ascend(sorted_by_id(wems)),
        sorted_by_id(wems).len() == wems.len(),
        forall|id: u32| files_of(sorted_by_id(wems), id) == #[trigger] files_of(wems, id),
    decreases wems.len(),
{
    if wems.len() > 0 {
        lemma_sorted_by_id(wems.drop_last());
        assert forall|id: u32| files_of(sorted_by_id(wems), id) == #[trigger] files_of(
            wems,
            id,
        ) by {
            lemma_placed(sorted_by_id(wems.drop_last()), wems.last(), id);
            assert(files_of(sorted_by_id(wems.drop_last()), id) == files_of(
                wems.drop_last(),
                id,
            ));
        }
        lemma_placed(sorted_by_id(wems.drop_last()), wems.last(), 0);
    }
}

/// Sorting leaves sorted files as they are.
pub proof fn lemma_sorted_stay(wems: Seq<(u32, Seq<u8>)>)
    requires
        ids_ascend(wems),
    ensures
        sorted_by_id(wems) == wems,
    decreases wems.len(),
{
    if wems.len() > 0 {
        let front = wems.drop_last();
        lemma_sorted_stay(front);
        if front.len() > 0 {
            assert(front.last() == wems[wems.len() - 2]);
        }
        assert(front.push(wems.last()) =~= wems);
    }
}

/// Where a file with this id belongs: behind the last one with no greater id.
fn place_of(wems: &Vec<(u32, Vec<u8>)>, id: u32) -> (r: usize)
    ensures
        r <= wems@.len(),
        r > 0 ==> wems@[r - 1].0 <= id,
        forall|k: int| r <= k < wems@.len() ==> (#[trigger] wems@[k]).0 > id,
{
    let mut i: usize = wems.len();
    while i > 0 && wems[i - 1].0 > id
        invariant
            i <= wems@.len(),
            forall|k: int| i <= k < wems@.len() ==> (#[trigger] wems@[k]).0 > id,
        decreases i,
    {
        i = i - 1;
    }
    i
}

proof fn lemma_placed_at(wems: Seq<(u32, Seq<u8>)>, wem: (u32, Seq<u8>), i: int)
    requires
        0 <= i <= wems.len(),
        i > 0 ==> wems[i - 1].0 <= wem.0,
        forall|k: int| i <= k < wems.len() ==> (#[trigger] wems[k]).0 > wem.0,
    ensures
        placed(wems, wem) == wems.insert(i, wem),
    decreases wems.len(),
{
    if i == wems.len() {
        assert(wems.insert(i, wem) =~= wems.push(wem));
    } else {
        assert(wems.last() == wems[wems.len() - 1]);
        lemma_placed_at(wems.drop_last(), wem, i);
        assert(wems.drop_last().insert(i, wem).push(wems.last()) =~= wems.insert(i, wem));
    }
}

/// The files in ascending order of their ids; files with the same id keep their order.
pub fn sort_wems(wems: Vec<(u32, Vec<u8>)>) -> (r: Vec<(u32, Vec<u8>)>)
    ensures
        wems_view(r@) == sorted_by_id(wems_view(wems@)),
{
    let ghost views = wems_view(wems@);
    let mut r: Vec<(u32, Vec<u8>)> = Vec::new();
    assert(views.take(0) =~= Seq::<(u32, Seq<u8>)>::empty());
    for wem in it: wems
        invariant
            it.seq() == wems@,
            views == wems_view(wems@),
            wems_view(r@) == sorted_by_id(views.take(it.index() as int)),
    {
        let ghost n = it.index() as int;
        let ghost before = wems_view(r@);
        let at = place_of(&r, wem.0);
        proof {
            assert(views.take(n + 1).drop_last() =~= views.take(n));
            assert(views.take(n + 1).last() == (wem.0, wem.1@));
            assert forall|k: int| at <= k < before.len() implies (#[trigger] before[k]).0
                > wem.0 by {
                assert(before[k].0 == r@[k].0);
            }
            lemma_placed_at(before, (wem.0, wem.1@), at as int);
        }
        let ghost view = (wem.0, wem.1@);
        r.insert(at, wem);
        assert(wems_view(r@) =~= before.insert(at as int, view));
    }
    assert(views.take(views.len() as int) =~= views);
    r
}

// ---------------------------------------------------------------------------
// Packing
// ---------------------------------------------------------------------------
/// The first aligned position at or behind `n`. Positions are aligned that share no bit with
/// `alignment - 1`.
pub open spec fn padded(n: u32, alignment: u32) -> u32 {
    ((n + alignment - 1) as u32) & !((alignment - 1) as u32)
}

/// `n` zero bytes.
pub open spec fn zeros(n: int) -> Seq<u8> {
    Seq::new(
        if n < 0 {
            0
        } else {
            n as nat
        },
        |i: int| 0u8,
    )
}

/// The audio data in front of file `k`: the files before it, each padded to the alignment.
pub open spec fn data_before(wems: Seq<(u32, Seq<u8>)>, alignment: u32, k: int) -> Seq<u8>
    decreases k,
{
    if k <= 0 {
        Seq::empty()
    } else {
        let written = data_before(wems, alignment, k - 1) + wems[k - 1].1;
        written + zeros(padded(written.len() as u32, alignment) - written.len())
    }
}

/// The audio data of the files. The last one is not padded.
pub open spec fn packed_data(wems: Seq<(u32, Seq<u8>)>, alignment: u32) -> Seq<u8> {
    if wems.len() == 0 {
        Seq::empty()
    } else {
        data_before(wems, alignment, wems.len() - 1) + wems.last().1
    }
}

/// Where file `k` lies in the audio data.
pub open spec fn descriptor(wems: Seq<(u32, Seq<u8>)>, alignment: u32, k: int) -> DIDXDescriptor {
    DIDXDescriptor {
        id: wems[k].0,
        offset: data_before(wems, alignment, k).len() as u32,
        size: wems[k].1.len() as u32,
    }
}

/// The index of the audio data.
pub open spec fn packed_index(
    wems: Seq<(u32, Seq<u8>)>,
    alignment: u32,
) -> Seq<DIDXDescriptor> {
    Seq::new(wems.len(), |k: int| descriptor(wems, alignment, k))
}

/// Can the index hold where the files lie? Positions are 32 bits wide.
pub open spec fn fits(wems: Seq<(u32, Seq<u8>)>, alignment: u32) -> bool {
    &&& wems.len() > 0 ==> alignment > 0
    &&& forall|k: int|
        0 <= k < wems.len() ==> #[trigger] data_before(wems, alignment, k).len()
            + wems[k].1.len() + alignment - 1 <= u32::MAX
}

/// A padded position is aligned, and less than the alignment behind.
pub proof fn lemma_padded(n: u32, alignment: u32)
    requires
        alignment > 0,
        n + alignment - 1 <= u32::MAX,
    ensures
        n <= padded(n, alignment) <= n + alignment - 1,
        padded(n, alignment) & ((alignment - 1) as u32) == 0,
{
    let m = (alignment - 1) as u32;
    let x = (n + m) as u32;
    assert(x >= m ==> x - m <= x & !m <= x) by (bit_vector);
    assert((x & !m) & m == 0) by (bit_vector);
}

/// The end of a file, padded.
fn pad_to(current: u32, alignment: u32) -> (r: u32)
    requires
        alignment > 0,
        current + alignment - 1 <= u32::MAX,
    ensures
        r == padded(current, alignment),
        current <= r <= current + alignment - 1,
{
    proof {
        lemma_padded(current, alignment);
    }
    (current + (alignment - 1)) & !(alignment - 1)
}

/// Every file lies where its descriptor says, and it starts at an aligned position.
pub proof fn lemma_packed(wems: Seq<(u32, Seq<u8>)>, alignment: u32, k: int)
    requires
        fits(wems, alignment),
        0 <= k < wems.len(),
    ensures
        ({
            let d = descriptor(wems, alignment, k);
            let data = packed_data(wems, alignment);
            &&& d.offset == data_before(wems, alignment, k).len()
            &&& d.size == wems[k].1.len()
            &&& d.offset + d.size <= data.len()
            &&& data.subrange(d.offset as int, d.offset + d.size) == wems[k].1
            &&& d.offset & ((alignment - 1) as u32) == 0
        }),
{
    let data = packed_data(wems, alignment);
    let front = data_before(wems, alignment, k);
    assert(front.len() + wems[k].1.len() + alignment - 1 <= u32::MAX);
    lemma_data_grows(wems, alignment, k, wems.len() - 1);
    let whole = front + wems[k].1;
    if k < wems.len() - 1 {
        lemma_data_grows(wems, alignment, k + 1, wems.len() - 1);
        let next = data_before(wems, alignment, k + 1);
        lemma_padded(whole.len() as u32, alignment);
        assert(whole.is_prefix_of(next));
        assert(next.is_prefix_of(data_before(wems, alignment, wems.len() - 1)));
    }
    assert(whole.is_prefix_of(data));
    assert forall|i: int| 0 <= i < wems[k].1.len() implies data.subrange(
        front.len() as int,
        (front.len() + wems[k].1.len()) as int,
    )[i] == wems[k].1[i] by {
        assert(data[front.len() + i] == whole[front.len() + i]);
    }
    assert(data.subrange(front.len() as int, whole.len() as int) =~= wems[k].1);
    if k == 0 {
        let m = (alignment - 1) as u32;
        assert(0u32 & m == 0) by (bit_vector);
    } else {
        let written = data_before(wems, alignment, k - 1) + wems[k - 1].1;
        assert(data_before(wems, alignment, k - 1).len() + wems[k - 1].1.len() + alignment - 1
            <= u32::MAX);
        lemma_padded(written.len() as u32, alignment);
        assert(front.len() == padded(written.len() as u32, alignment));
    }
}

proof fn lemma_data_grows(wems: Seq<(u32, Seq<u8>)>, alignment: u32, i: int, j: int)
    requires
        0 <= i <= j < wems.len(),
    ensures
        data_before(wems, alignment, i).is_prefix_of(data_before(wems, alignment, j)),
    decreases j - i,
{
    if i < j {
        lemma_data_grows(wems, alignment, i, j - 1);
        let a = data_before(wems, alignment, i);
        let b = data_before(wems, alignment, j - 1);
        let c = data_before(wems, alignment, j);
        assert(b =~= c.take(b.len() as int));
        assert(a =~= c.take(a.len() as int));
    }
}

/// Can the index hold where the files lie?
pub fn wems_fit(wems: &Vec<(u32, Vec<u8>)>, alignment: u32) -> (r: bool)
    ensures
        r == fits(wems_view(wems@), alignment),
{
    let ghost views = wems_view(wems@);
    if wems.len() == 0 {
        return true;
    }
    if alignment == 0 {
        return false;
    }
    let mut position: u32 = 0;
    let mut i: usize = 0;
    while i < wems.len()
        invariant
            i <= wems@.len(),
            alignment > 0,
            views == wems_view(wems@),
            position == data_before(views, alignment, i as int).len(),
            forall|k: int|
                0 <= k < i ==> #[trigger] data_before(views, alignment, k).len()
                    + views[k].1.len() + alignment - 1 <= u32::MAX,
        decreases wems@.len() - i,
    {
        let ghost before = data_before(views, alignment, i as int);
        assert(views[i as int].1 == wems@[i as int].1@);
        let size = wems[i].1.len();
        let room = u32::MAX - (alignment - 1);
        if position > room || size as u64 > (room - position) as u64 {
            assert(before.len() + views[i as int].1.len() + alignment - 1 > u32::MAX);
            return false;
        }
        let current = position + size as u32;
        position = pad_to(current, alignment);
        i = i + 1;
        assert((before + views[i - 1].1).len() == current);
    }
    true
}

/// The index and the data of the files.
fn pack(wems: &Vec<(u32, Vec<u8>)>, alignment: u32) -> (r: (Vec<DIDXDescriptor>, Vec<u8>))
    requires
        fits(wems_view(wems@), alignment),
    ensures
        r.0@ == packed_index(wems_view(wems@), alignment),
        r.1@ == packed_data(wems_view(wems@), alignment),
{
    let ghost views = wems_view(wems@);
    let mut descriptors: Vec<DIDXDescriptor> = Vec::new();
    let mut data: Vec<u8> = Vec::new();
    let mut i: usize = 0;
    while i < wems.len()
        invariant
            i <= wems@.len(),
            views == wems_view(wems@),
            fits(views, alignment),
            descriptors@.len() == i,
            forall|k: int|
                0 <= k < i ==> #[trigger] descriptors@[k] == descriptor(views, alignment, k),
            i < wems@.len() ==> data@ == data_before(views, alignment, i as int),
            i == wems@.len() ==> data@ == packed_data(views, alignment),
        decreases wems@.len() - i,
    {
        let ghost before = data@;
        assert(views[i as int].1 == wems@[i as int].1@);
        assert(data_before(views, alignment, i as int).len() + views[i as int].1.len() + alignment
            - 1 <= u32::MAX);
        let bytes = &wems[i].1;
        let offset = data.len() as u32;
        let size = bytes.len() as u32;
        let mut j: usize = 0;
        while j < bytes.len()
            invariant
                j <= bytes@.len(),
                data@ == before + bytes@.take(j as int),
            decreases bytes@.len() - j,
        {
            data.push(bytes[j]);
            j = j + 1;
            assert(bytes@.take(j as int) =~= bytes@.take(j - 1).push(bytes@[j - 1]));
            assert(data@ =~= before + bytes@.take(j as int));
        }
        assert(bytes@.take(j as int) =~= bytes@);
        let ghost written = data@;
        let current = data.len() as u32;
        let target = pad_to(current, alignment);
        // The last entry has no trailing pad.
        if i != wems.len() - 1 {
            let mut position: u32 = current;
            while position < target
                invariant
                    current <= position <= target,
                    current == written.len(),
                    data@ == written + zeros(position - current),
                decreases target - position,
            {
                data.push(0);
                position = position + 1;
                assert(zeros(position - current) =~= zeros(position - 1 - current).push(0u8));
                assert(data@ =~= written + zeros(position - current));
            }
        }
        descriptors.push(DIDXDescriptor { id: wems[i].0, offset, size });
        i = i + 1;
    }
    assert(descriptors@ =~= packed_index(views, alignment));
    (descriptors, data)
}

// ---------------------------------------------------------------------------
// Sections of a bank
// ---------------------------------------------------------------------------
/// Is the section the header?
pub open spec fn is_header() -> spec_fn(SectionData) -> bool {
    |s: SectionData| s.body is BKHD
}

/// Is the section the index of the audio data?
pub open spec fn is_index() -> spec_fn(SectionData) -> bool {
    |s: SectionData| s.body is DIDX
}

/// Is the section the audio data?
pub open spec fn is_data() -> spec_fn(SectionData) -> bool {
    |s: SectionData| s.body is DATA
}

/// Does the section hold audio data, or the index of it?
pub open spec fn is_audio(s: SectionData) -> bool {
    s.body is DIDX || s.body is DATA
}

/// The index of the first header, or the number of sections.
pub open spec fn header_index(bank: Seq<SectionData>) -> int {
    first_where(bank, is_header())
}

/// The alignment that the first header asks for.
pub open spec fn bank_alignment(bank: Seq<SectionData>) -> Option<u32> {
    if header_index(bank) < bank.len() {
        alignment_in(bank[header_index(bank)].body->BKHD_0)
    } else {
        None
    }
}

/// The bank with two sections of audio behind its first header.
pub open spec fn with_audio(
    bank: Seq<SectionData>,
    wems: Seq<(u32, Seq<u8>)>,
    alignment: u32,
) -> Seq<SectionData> {
    let none = seq![0u8, 0u8, 0u8, 0u8];
    bank.insert(
        header_index(bank) + 1,
        SectionData { magic: none, body: SectionContent::DIDX(packed_index(wems, alignment)) },
    ).insert(
        header_index(bank) + 2,
        SectionData { magic: none, body: SectionContent::DATA(packed_data(wems, alignment)) },
    )
}

/// The sections that hold no audio.
pub open spec fn without_audio(bank: Seq<SectionData>) -> Seq<SectionData>
    decreases bank.len(),
{
    if bank.len() == 0 {
        Seq::empty()
    } else if is_audio(bank.last()) {
        without_audio(bank.drop_last())
    } else {
        without_audio(bank.drop_last()).push(bank.last())
    }
}

/// Does no section hold audio?
pub open spec fn has_no_audio(bank: Seq<SectionData>) -> bool {
    forall|i: int| 0 <= i < bank.len() ==> !is_audio(#[trigger] bank[i])
}

/// The audio files that an index and data hold.
pub open spec fn files_in(index: Seq<DIDXDescriptor>, data: Seq<u8>) -> Seq<(u32, Seq<u8>)> {
    index.map_values(
        |d: DIDXDescriptor| (d.id, data.subrange(d.offset as int, d.offset + d.size)),
    )
}

/// The audio files of a bank, by its first index and its first data.
pub open spec fn extracted(bank: Seq<SectionData>) -> Seq<(u32, Seq<u8>)> {
    let i = first_where(bank, is_index());
    let d = first_where(bank, is_data());
    if i < bank.len() && d < bank.len() {
        files_in(bank[i].body->DIDX_0, bank[d].body->DATA_0)
    } else {
        Seq::empty()
    }
}

/// Do all files lie within the data?
pub open spec fn index_in_range(index: Seq<DIDXDescriptor>, data: Seq<u8>) -> bool {
    forall|k: int| 0 <= k < index.len() ==> (#[trigger] index[k]).offset + index[k].size
        <= data.len()
}

/// Do all files of the bank lie within its data?
pub open spec fn audio_in_range(bank: Seq<SectionData>) -> bool {
    let i = first_where(bank, is_index());
    let d = first_where(bank, is_data());
    i < bank.len() && d < bank.len() ==> index_in_range(
        bank[i].body->DIDX_0,
        bank[d].body->DATA_0,
    )
}

/// Do all files lie within data of this length?
fn all_in_range(index: &Vec<DIDXDescriptor>, len: usize) -> (r: bool)
    ensures
        r == (forall|k: int|
            0 <= k < index@.len() ==> (#[trigger] index@[k]).offset + index@[k].size <= len),
{
    let mut k: usize = 0;
    while k < index.len()
        invariant
            k <= index@.len(),
            forall|j: int|
                0 <= j < k ==> (#[trigger] index@[j]).offset + index@[j].size <= len,
        decreases index@.len() - k,
    {
        let d = index[k];
        if d.offset as u64 + d.size as u64 > len as u64 {
            assert(index@[k as int].offset + index@[k as int].size > len);
            return false;
        }
        k = k + 1;
    }
    true
}

impl Soundbank {
    /// The index of the first header, or the number of sections.
    fn header_index(&self) -> (r: usize)
        ensures
            r == header_index(self@),
            r <= self.sections@.len(),
            r < self.sections@.len() ==> self.sections@[r as int].body is BKHD,
    {
        let ghost p = is_header();
        let mut i: usize = 0;
        while i < self.sections.len() && !matches!(&self.sections[i].body, SectionBody::BKHD(_))
            invariant
                i <= self.sections@.len(),
                p == is_header(),
                forall|k: int| 0 <= k < i ==> !p(#[trigger] self@[k]),
            decreases self.sections@.len() - i,
        {
            assert(!p(self@[i as int]));
            i = i + 1;
        }
        proof {
            if i < self.sections@.len() {
                assert(p(self@[i as int]));
            }
            lemma_first_where(self@, p, i as int);
        }
        i
    }

    /// The alignment that the first header asks for.
    pub fn wem_alignment(&self) -> (r: Option<u32>)
        ensures
            r == bank_alignment(self@),
            r is None <==> header_index(self@) == self@.len(),
    {
        let i = self.header_index();
        if i < self.sections.len() {
            match &self.sections[i].body {
                SectionBody::BKHD(header) => {
                    assert(self@[i as int].body == SectionContent::BKHD(header@));
                    Some(header.wem_alignment())
                },
                _ => None,
            }
        } else {
            None
        }
    }

    fn index_section(&self) -> (r: Option<&Vec<DIDXDescriptor>>)
        ensures
            ({
                let i = first_where(self@, is_index());
                match r {
                    Some(index) => i < self@.len() && self@[i].body == SectionContent::DIDX(
                        index@,
                    ),
                    None => i == self@.len(),
                }
            }),
    {
        let ghost p = is_index();
        let mut i: usize = 0;
        while i < self.sections.len()
            invariant
                i <= self.sections@.len(),
                p == is_index(),
                forall|k: int| 0 <= k < i ==> !p(#[trigger] self@[k]),
            decreases self.sections@.len() - i,
        {
            assert(self@[i as int] == self.sections@[i as int]@);
            match &self.sections[i].body {
                SectionBody::DIDX(didx) => {
                    proof {
                        assert(p(self@[i as int]));
                        lemma_first_where(self@, p, i as int);
                    }
                    return Some(&didx.descriptors);
                },
                _ => {},
            }
            i = i + 1;
        }
        proof {
            lemma_first_where(self@, p, i as int);
        }
        None
    }

    fn data_section(&self) -> (r: Option<&Vec<u8>>)
        ensures
            ({
                let i = first_where(self@, is_data());
                match r {
                    Some(data) => i < self@.len() && self@[i].body == SectionContent::DATA(data@),
                    None => i == self@.len(),
                }
            }),
    {
        let ghost p = is_data();
        let mut i: usize = 0;
        while i < self.sections.len()
            invariant
                i <= self.sections@.len(),
                p == is_data(),
                forall|k: int| 0 <= k < i ==> !p(#[trigger] self@[k]),
            decreases self.sections@.len() - i,
        {
            assert(self@[i as int] == self.sections@[i as int]@);
            match &self.sections[i].body {
                SectionBody::DATA(data) => {
                    proof {
                        assert(p(self@[i as int]));
                        lemma_first_where(self@, p, i as int);
                    }
                    return Some(&data.data);
                },
                _ => {},
            }
            i = i + 1;
        }
        proof {
            lemma_first_where(self@, p, i as int);
        }
        None
    }

    /// Do all audio files lie within the audio data?
    pub fn audio_in_range(&self) -> (r: bool)
        ensures
            r == audio_in_range(self@),
    {
        match (self.index_section(), self.data_section()) {
            (Some(index), Some(data)) => all_in_range(index, data.len()),
            _ => true,
        }
    }

    /// Drops the sections that hold audio.
    pub fn strip_audio(&mut self)
        ensures
            final(self)@ == without_audio(old(self)@),
    {
        let ghost whole = self@;
        let mut sections: Vec<Section> = Vec::new();
        std::mem::swap(&mut self.sections, &mut sections);
        let ghost raw = sections@;
        assert(whole.take(0) =~= Seq::<SectionData>::empty());
        assert(self@ =~= Seq::<SectionData>::empty());
        for section in it: sections
            invariant
                it.seq() == raw,
                whole == raw.map_values(|s: Section| s@),
                self@ == without_audio(whole.take(it.index() as int)),
            decreases raw.len() - it.index(),
        {
            let ghost n = it.index() as int;
            let ghost before = self@;
            proof {
                assert(whole.take(n + 1).drop_last() =~= whole.take(n));
                assert(whole.take(n + 1).last() == section@);
            }
            let audio = matches!(&section.body, SectionBody::DIDX(_) | SectionBody::DATA(_));
            let ghost view = section@;
            if !audio {
                self.sections.push(section);
                assert(self@ =~= before.push(view));
            }
        }
        assert(whole.take(whole.len() as int) =~= whole);
    }
}

/// The audio files of the bank, by its first index and its first data; none if one of them
/// is missing.
pub fn extract_wems(soundbank: &Soundbank) -> (r: Vec<(u32, Vec<u8>)>)
    requires
        audio_in_range(soundbank@),
    ensures
        wems_view(r@) == extracted(soundbank@),
{
    let mut r: Vec<(u32, Vec<u8>)> = Vec::new();
    match (soundbank.index_section(), soundbank.data_section()) {
        (Some(index), Some(data)) => {
            let ghost files = files_in(index@, data@);
            let len = data.len();
            let mut k: usize = 0;
            while k < index.len()
                invariant
                    k <= index@.len(),
                    len == data@.len(),
                    index_in_range(index@, data@),
                    files == files_in(index@, data@),
                    wems_view(r@) == files.take(k as int),
                decreases index@.len() - k,
            {
                let ghost before = r@;
                let d = index[k];
                assert(index@[k as int].offset + index@[k as int].size <= data@.len());
                let start = d.offset as usize;
                let end = start + d.size as usize;
                let mut bytes: Vec<u8> = Vec::new();
                let mut j: usize = start;
                while j < end
                    invariant
                        start <= j <= end,
                        end <= data@.len(),
                        bytes@ == data@.subrange(start as int, j as int),
                    decreases end - j,
                {
                    bytes.push(data[j]);
                    j = j + 1;
                    assert(data@.subrange(start as int, j as int) =~= data@.subrange(
                        start as int,
                        j - 1,
                    ).push(data@[j - 1]));
                }
                let ghost view = (d.id, bytes@);
                r.push((d.id, bytes));
                k = k + 1;
                assert(wems_view(r@) =~= wems_view(before).push(view));
                assert(files.take(k as int) =~= files.take(k - 1).push(view));
            }
            assert(files.take(k as int) =~= files);
        },
        _ => {
            assert(wems_view(r@) =~= Seq::<(u32, Seq<u8>)>::empty());
        },
    }
    r
}

/// Puts audio files into the bank: the index and the data, packed in order of the ids, behind
/// the header.
pub fn rebuild_didx_data(soundbank: &mut Soundbank, wems: Vec<(u32, Vec<u8>)>) -> (r: Result<
    (),
    StorageError,
>)
    requires
        bank_alignment(old(soundbank)@) matches Some(alignment) ==> fits(
            sorted_by_id(wems_view(wems@)),
            alignment,
        ),
    ensures
        match bank_alignment(old(soundbank)@) {
            Some(alignment) => r is Ok && final(soundbank)@ == with_audio(
                old(soundbank)@,
                sorted_by_id(wems_view(wems@)),
                alignment,
            ),
            None => r is Err && r->Err_0@ == StorageFault::MissingBkhd && final(soundbank)@ == old(
                soundbank,
            )@,
        },
{
    let ghost before = soundbank@;
    let alignment = match soundbank.wem_alignment() {
        Some(alignment) => alignment,
        None => {
            return Err(StorageError::MissingBkhd);
        },
    };
    let sorted = sort_wems(wems);
    let (descriptors, data) = pack(&sorted, alignment);
    let at = soundbank.header_index();
    let magic: [u8; 4] = [0, 0, 0, 0];
    assert(magic@ =~= seq![0u8, 0u8, 0u8, 0u8]);
    let didx = Section { magic, body: SectionBody::DIDX(DIDXSection { descriptors }) };
    let audio = Section { magic, body: SectionBody::DATA(DATASection { data }) };
    let ghost one = didx@;
    let ghost two = audio@;
    let _ = soundbank.sections.len();
    soundbank.sections.insert(at + 1, didx);
    assert(soundbank@ =~= before.insert(at + 1, one));
    let _ = soundbank.sections.len();
    soundbank.sections.insert(at + 2, audio);
    assert(soundbank@ =~= before.insert(at + 1, one).insert(at + 2, two));
    Ok(())
}

/// The same as `rebuild_didx_data`, open to measurements.
pub fn rebuild_didx_data_for_bench(soundbank: &mut Soundbank, wems: Vec<(u32, Vec<u8>)>) -> (r: Result<
    (),
    StorageError,
>)
    requires
        bank_alignment(old(soundbank)@) matches Some(alignment) ==> fits(
            sorted_by_id(wems_view(wems@)),
            alignment,
        ),
    ensures
        match bank_alignment(old(soundbank)@) {
            Some(alignment) => r is Ok && final(soundbank)@ == with_audio(
                old(soundbank)@,
                sorted_by_id(wems_view(wems@)),
                alignment,
            ),
            None => r is Err && r->Err_0@ == StorageFault::MissingBkhd && final(soundbank)@ == old(
                soundbank,
            )@,
        },
{
    rebuild_didx_data(soundbank, wems)
}


// ---------------------------------------------------------------------------
// Laws
// ---------------------------------------------------------------------------
/// A bank without audio keeps all of its sections when audio is dropped.
pub proof fn lemma_no_audio_stays(bank: Seq<SectionData>)
    requires
        has_no_audio(bank),
    ensures
        without_audio(bank) == bank,
    decreases bank.len(),
{
    if bank.len() > 0 {
        assert(!is_audio(bank[bank.len() - 1]));
        assert forall|i: int| 0 <= i < bank.drop_last().len() implies !is_audio(
            #[trigger] bank.drop_last()[i],
        ) by {
            assert(bank.drop_last()[i] == bank[i]);
        }
        lemma_no_audio_stays(bank.drop_last());
        assert(bank.drop_last().push(bank.last()) =~= bank);
    }
}

/// What is left of a bank when audio is dropped holds no audio.
pub proof fn lemma_without_audio(bank: Seq<SectionData>)
    ensures
        has_no_audio(without_audio(bank)),
    decreases bank.len(),
{
    if bank.len() > 0 {
        lemma_without_audio(bank.drop_last());
    }
}

/// Dropping audio joins with joining sections.
pub proof fn lemma_without_audio_joined(a: Seq<SectionData>, b: Seq<SectionData>)
    ensures
        without_audio(a + b) == without_audio(a) + without_audio(b),
    decreases b.len(),
{
    if b.len() == 0 {
        assert(a + b =~= a);
        assert(without_audio(a) + without_audio(b) =~= without_audio(a));
    } else {
        assert((a + b).drop_last() =~= a + b.drop_last());
        assert((a + b).last() == b.last());
        lemma_without_audio_joined(a, b.drop_last());
        let left = without_audio(a);
        let right = without_audio(b.drop_last());
        assert((left + right).push(b.last()) =~= left + right.push(b.last()));
    }
}

/// What was packed into a bank comes out of it: the files that were put in, in order of their
/// ids, and the bank as it was.
pub proof fn lemma_rebuilt_extracts(
    bank: Seq<SectionData>,
    wems: Seq<(u32, Seq<u8>)>,
    alignment: u32,
)
    requires
        has_no_audio(bank),
        bank_alignment(bank) == Some(alignment),
        fits(sorted_by_id(wems), alignment),
    ensures
        audio_in_range(with_audio(bank, sorted_by_id(wems), alignment)),
        extracted(with_audio(bank, sorted_by_id(wems), alignment)) == sorted_by_id(wems),
        without_audio(with_audio(bank, sorted_by_id(wems), alignment)) == bank,
        with_audio(bank, sorted_by_id(wems), alignment).remove(header_index(bank) + 2).remove(
            header_index(bank) + 1,
        ) == bank,
        first_where(with_audio(bank, sorted_by_id(wems), alignment), is_index()) == header_index(
            bank,
        ) + 1,
        first_where(with_audio(bank, sorted_by_id(wems), alignment), is_data()) == header_index(
            bank,
        ) + 2,
{
    let sorted = sorted_by_id(wems);
    let after = with_audio(bank, sorted, alignment);
    let h = header_index(bank);
    lemma_first_where_points(bank, is_header());
    let index = packed_index(sorted, alignment);
    let data = packed_data(sorted, alignment);
    assert(after[h + 1].body == SectionContent::DIDX(index));
    assert(after[h + 2].body == SectionContent::DATA(data));
    assert forall|k: int| 0 <= k < h + 1 implies !is_audio(#[trigger] after[k]) by {
        assert(after[k] == bank[k]);
    }
    assert forall|k: int| 0 <= k < h + 1 implies !is_index()(#[trigger] after[k]) by {
        assert(!is_audio(after[k]));
    }
    lemma_first_where(after, is_index(), h + 1);
    assert forall|k: int| 0 <= k < h + 2 implies !is_data()(#[trigger] after[k]) by {
        if k < h + 1 {
            assert(!is_audio(after[k]));
        }
    }
    lemma_first_where(after, is_data(), h + 2);
    assert forall|k: int| 0 <= k < index.len() implies (#[trigger] index[k]).offset + index[k].size
        <= data.len() && files_in(index, data)[k] == sorted[k] by {
        lemma_packed(sorted, alignment, k);
    }
    assert(files_in(index, data) =~= sorted);
    assert(after.remove(h + 2).remove(h + 1) =~= bank);
    let front = bank.take(h + 1);
    let back = bank.skip(h + 1);
    let middle = seq![after[h + 1], after[h + 2]];
    assert(after =~= front + middle + back);
    lemma_without_audio_joined(front + middle, back);
    lemma_without_audio_joined(front, middle);
    assert(middle.drop_last().drop_last() =~= Seq::<SectionData>::empty());
    assert(middle.drop_last().last() == after[h + 1]);
    assert(without_audio(middle.drop_last()) == without_audio(middle.drop_last().drop_last()));
    assert(without_audio(middle) =~= Seq::<SectionData>::empty());
    assert(has_no_audio(front)) by {
        assert forall|i: int| 0 <= i < front.len() implies !is_audio(#[trigger] front[i]) by {
            assert(front[i] == bank[i]);
        }
    }
    assert(has_no_audio(back)) by {
        assert forall|i: int| 0 <= i < back.len() implies !is_audio(#[trigger] back[i]) by {
            assert(back[i] == bank[h + 1 + i]);
        }
    }
    lemma_no_audio_stays(front);
    lemma_no_audio_stays(back);
    assert(front + Seq::<SectionData>::empty() + back =~= bank);
}

} // verus!
