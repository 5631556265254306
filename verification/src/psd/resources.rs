//! Image resources, and the sections in front of the layers.
//!
//! Every resource is preserved verbatim, in file order, so that a writer
//! can emit it again; on top of that the resolution and the colour profile
//! are interpreted.

use crate::bytes::{
    be16, be32, has_tag, holds_number, law_numbers_are_read_from_their_bytes, owned, read_be32,
    tagged,
};
use crate::psd::cursor::{Cursor, Reader};
use crate::psd::header::{
    header_at, holds_header, law_a_header_is_read_back, parse_header, Header,
};
use crate::psd::{PsdError, PsdFault, PsdOutcome, PsdResult};
use crate::text::{decimal, push_decimal};
use vstd::prelude::*;

verus! {

pub const RES_RESOLUTION_INFO: u16 = 0x03ED;

pub const RES_ICC_PROFILE: u16 = 0x040F;

/// The id under which the colour mode data is kept among the resources. No
/// real resource has it.
pub const COLOR_MODE_DATA_SENTINEL_ID: u16 = 0xFFFF;

/// A resource as it stands in the file: its name with the length byte and
/// the padding, and its data without.
#[derive(Debug)]
pub struct PreservedResource {
    pub id: u16,
    pub name: Vec<u8>,
    pub data: Vec<u8>,
}

/// A [`PreservedResource`] as a mathematical value.
#[verifier::ext_equal]
pub struct ResourceModel {
    pub id: u16,
    pub name: Seq<u8>,
    pub data: Seq<u8>,
}

impl View for PreservedResource {
    type V = ResourceModel;

    open spec fn view(&self) -> ResourceModel {
        ResourceModel { id: self.id, name: self.name@, data: self.data@ }
    }
}

/// Resources as mathematical values.
pub open spec fn resource_list(list: Seq<PreservedResource>) -> Seq<ResourceModel> {
    Seq::new(list.len(), |i: int| list[i]@)
}

/// The resources of a file.
#[derive(Debug)]
pub struct ParsedResources {
    pub preserved: Vec<PreservedResource>,
    /// Horizontal pixels per inch in 16.16 fixed point: the pixels are this
    /// number over 65536.
    pub resolution: Option<u32>,
    pub icc_profile: Option<Vec<u8>>,
}

/// [`ParsedResources`] as a mathematical value.
pub struct ResourcesModel {
    pub preserved: Seq<ResourceModel>,
    pub resolution: Option<u32>,
    pub icc_profile: Option<Seq<u8>>,
}

impl View for ParsedResources {
    type V = ResourcesModel;

    open spec fn view(&self) -> ResourcesModel {
        ResourcesModel {
            preserved: resource_list(self.preserved@),
            resolution: self.resolution,
            icc_profile: match self.icc_profile {
                Some(profile) => Some(profile@),
                None => None,
            },
        }
    }
}

impl Default for ParsedResources {
    fn default() -> (all: ParsedResources)
        ensures
            all@ == no_resources(),
    {
        let all = ParsedResources { preserved: Vec::new(), resolution: None, icc_profile: None };
        assert(all@.preserved =~= Seq::<ResourceModel>::empty());
        all
    }
}

/// A list of four bytes in words.
pub open spec fn signature_text(sig: Seq<u8>) -> Seq<char> {
    "["@ + decimal(sig[0] as int) + ", "@ + decimal(sig[1] as int) + ", "@ + decimal(
        sig[2] as int,
    ) + ", "@ + decimal(sig[3] as int) + "]"@
}

/// The name field of a block, from its length byte on: the length byte,
/// the name, and a padding byte where the two make an odd number. The
/// error comes from the first part that is missing.
pub open spec fn name_at(r: Reader) -> PsdOutcome<(Seq<u8>, Reader)> {
    match r.number(1) {
        Err(fault) => Err(fault),
        Ok(len) => {
            let a = r.past(1);
            match a.next(len) {
                Err(fault) => Err(fault),
                Ok(_) => if len % 2 == 1 {
                    Ok((r.data.subrange(r.pos, r.pos + 1 + len), a.past(len)))
                } else {
                    let b = a.past(len);
                    match b.number(1) {
                        Err(fault) => Err(fault),
                        Ok(_) => Ok((r.data.subrange(r.pos, r.pos + 2 + len), b.past(1))),
                    }
                },
            }
        },
    }
}

/// The data of a block, from its length on: what the length says, and a
/// padding byte where that is odd and there is one.
pub open spec fn data_at(r: Reader) -> PsdOutcome<(Seq<u8>, Reader)> {
    match r.number(4) {
        Err(fault) => Err(fault),
        Ok(len) => {
            let a = r.past(4);
            match a.next(len) {
                Err(fault) => Err(fault),
                Ok(data) => {
                    let b = a.past(len);
                    if len % 2 == 1 && b.left() > 0 {
                        Ok((data, b.past(1)))
                    } else {
                        Ok((data, b))
                    }
                },
            }
        },
    }
}

/// One block: a signature, an id, a name and data.
pub open spec fn block_at(r: Reader) -> PsdOutcome<(ResourceModel, Reader)> {
    if !tagged(r.data, r.pos, "8BIM"@) {
        Err(
            PsdFault::Corrupt(
                "image resource signature "@ + signature_text(
                    r.data.subrange(r.pos, r.pos + 4),
                ) + " is not 8BIM"@,
            ),
        )
    } else {
        let a = r.past(4);
        match a.number(2) {
            Err(fault) => Err(fault),
            Ok(id) => match name_at(a.past(2)) {
                Err(fault) => Err(fault),
                Ok((name, b)) => match data_at(b) {
                    Err(fault) => Err(fault),
                    Ok((data, c)) => Ok((ResourceModel { id: id as u16, name, data }, c)),
                },
            },
        }
    }
}

/// Resources with one more: it is kept, and where it is the resolution or
/// the profile it is interpreted too.
pub open spec fn with_block(all: ResourcesModel, block: ResourceModel) -> ResourcesModel {
    ResourcesModel {
        preserved: all.preserved.push(block),
        resolution: if block.id == RES_RESOLUTION_INFO && block.data.len() >= 4 {
            Some(be32(block.data, 0) as u32)
        } else {
            all.resolution
        },
        icc_profile: if block.id == RES_ICC_PROFILE {
            Some(block.data)
        } else {
            all.icc_profile
        },
    }
}

/// The resources so far, then those of the rest of a section. One to three
/// bytes at the end are ignored.
pub open spec fn blocks_at(r: Reader, all: ResourcesModel) -> PsdOutcome<ResourcesModel>
    decreases r.left(),
{
    if r.left() < 4 {
        Ok(all)
    } else {
        match block_at(r) {
            Err(fault) => Err(fault),
            Ok((block, next)) => if next.left() < r.left() {
                blocks_at(next, with_block(all, block))
            } else {
                Ok(all)
            },
        }
    }
}

/// No resources.
pub open spec fn no_resources() -> ResourcesModel {
    ResourcesModel { preserved: Seq::empty(), resolution: None, icc_profile: None }
}

/// The resources section at a cursor, and where reading it leaves the
/// cursor.
pub open spec fn resources_at(r: Reader) -> (PsdOutcome<ResourcesModel>, Reader) {
    match r.number(4) {
        Err(fault) => (Err(fault), r),
        Ok(len) => {
            let a = r.past(4);
            match a.next(len) {
                Err(fault) => (Err(fault), a),
                Ok(section) => (
                    blocks_at(Reader::start(section), no_resources()),
                    a.past(len),
                ),
            }
        },
    }
}

fn push_signature(text: &mut String, sig: [u8; 4])
    ensures
        final(text)@ == old(text)@ + signature_text(sig@),
{
    text.append("[");
    push_decimal(text, sig[0] as u64);
    text.append(", ");
    push_decimal(text, sig[1] as u64);
    text.append(", ");
    push_decimal(text, sig[2] as u64);
    text.append(", ");
    push_decimal(text, sig[3] as u64);
    text.append("]");
    assert(text@ =~= old(text)@ + signature_text(sig@));
}

fn read_name(sec: &mut Cursor) -> (r: PsdResult<Vec<u8>>)
    ensures
        match r {
            Ok(name) => name_at(old(sec)@) == PsdOutcome::<(Seq<u8>, Reader)>::Ok(
                (name@, final(sec)@),
            ),
            Err(e) => name_at(old(sec)@) == PsdOutcome::<(Seq<u8>, Reader)>::Err(e@),
        },
{
    let ghost start = sec@;
    let len: u8 = match sec.u8() {
        Ok(len) => len,
        Err(e) => return Err(e),
    };
    let bytes = match sec.take(len as usize) {
        Ok(bytes) => bytes,
        Err(e) => return Err(e),
    };
    let mut name: Vec<u8> = Vec::new();
    name.push(len);
    let mut tail: Vec<u8> = owned(bytes);
    name.append(&mut tail);
    assert(name@ =~= start.data.subrange(start.pos, start.pos + 1 + len));
    if len % 2 == 0 {
        match sec.u8() {
            Ok(pad) => {
                name.push(pad);
                assert(name@ =~= start.data.subrange(start.pos, start.pos + 2 + len));
            },
            Err(e) => return Err(e),
        }
    }
    Ok(name)
}

fn read_data(sec: &mut Cursor) -> (r: PsdResult<Vec<u8>>)
    ensures
        match r {
            Ok(data) => data_at(old(sec)@) == PsdOutcome::<(Seq<u8>, Reader)>::Ok(
                (data@, final(sec)@),
            ),
            Err(e) => data_at(old(sec)@) == PsdOutcome::<(Seq<u8>, Reader)>::Err(e@),
        },
{
    let len: u32 = match sec.u32() {
        Ok(len) => len,
        Err(e) => return Err(e),
    };
    let bytes = match sec.take(len as usize) {
        Ok(bytes) => bytes,
        Err(e) => return Err(e),
    };
    let data = owned(bytes);
    if len % 2 == 1 && sec.remaining() > 0 {
        match sec.skip(1) {
            Ok(_) => {},
            Err(e) => return Err(e),
        }
    }
    Ok(data)
}

fn read_block(sec: &mut Cursor) -> (r: PsdResult<PreservedResource>)
    requires
        old(sec)@.left() >= 4,
    ensures
        match r {
            Ok(block) => block_at(old(sec)@) == PsdOutcome::<(ResourceModel, Reader)>::Ok(
                (block@, final(sec)@),
            ),
            Err(e) => block_at(old(sec)@) == PsdOutcome::<(ResourceModel, Reader)>::Err(e@),
        },
        r is Ok ==> final(sec)@.left() < old(sec)@.left(),
{
    let ghost start = sec@;
    let sig: [u8; 4] = match sec.sig4() {
        Ok(sig) => sig,
        Err(e) => return Err(e),
    };
    let marked: bool = has_tag(sig.as_slice(), 0, "8BIM");
    proof {
        reveal_strlit("8BIM");
        assert(sig@ == start.data.subrange(start.pos, start.pos + 4));
        if marked {
            assert forall|i: int| 0 <= i < "8BIM"@.len() implies #[trigger] "8BIM"@[i] as u32
                == start.data[start.pos + i] as u32 by {
                assert(sig@[0 + i] == start.data[start.pos + i]);
            }
            assert(tagged(start.data, start.pos, "8BIM"@));
        } else if tagged(start.data, start.pos, "8BIM"@) {
            assert forall|i: int| 0 <= i < "8BIM"@.len() implies #[trigger] "8BIM"@[i] as u32
                == sig@[0 + i] as u32 by {
                assert(sig@[i] == start.data[start.pos + i]);
            }
            assert(tagged(sig@, 0, "8BIM"@));
        }
    }
    if !marked {
        let mut text = "image resource signature ".to_string();
        push_signature(&mut text, sig);
        text.append(" is not 8BIM");
        return Err(PsdError::Corrupt(text));
    }
    let id: u16 = match sec.u16() {
        Ok(id) => id,
        Err(e) => return Err(e),
    };
    let name = match read_name(sec) {
        Ok(name) => name,
        Err(e) => return Err(e),
    };
    let data = match read_data(sec) {
        Ok(data) => data,
        Err(e) => return Err(e),
    };
    Ok(PreservedResource { id, name, data })
}

/// Reads the image resources section.
pub fn parse_image_resources(cur: &mut Cursor) -> (r: PsdResult<ParsedResources>)
    ensures
        final(cur)@ == resources_at(old(cur)@).1,
        match r {
            Ok(all) => resources_at(old(cur)@).0 == PsdOutcome::<ResourcesModel>::Ok(all@),
            Err(e) => resources_at(old(cur)@).0 == PsdOutcome::<ResourcesModel>::Err(e@),
        },
{
    let len: u32 = match cur.u32() {
        Ok(len) => len,
        Err(e) => return Err(e),
    };
    let mut sec = match cur.sub(len as usize) {
        Ok(sec) => sec,
        Err(e) => return Err(e),
    };
    let ghost goal = blocks_at(sec@, no_resources());
    let mut out = ParsedResources::default();
    while sec.remaining() >= 4
        invariant
            resources_at(old(cur)@) == (goal, cur@),
            blocks_at(sec@, out@) == goal,
        decreases sec@.left(),
    {
        let ghost at = sec@;
        let block = match read_block(&mut sec) {
            Ok(block) => block,
            Err(e) => return Err(e),
        };
        let ghost before = out@;
        if block.id == RES_RESOLUTION_INFO && block.data.len() >= 4 {
            out.resolution = Some(read_be32(block.data.as_slice(), 0));
        }
        if block.id == RES_ICC_PROFILE {
            out.icc_profile = Some(owned(block.data.as_slice()));
        }
        out.preserved.push(block);
        assert(out@.preserved =~= before.preserved.push(block@));
        assert(out@ == with_block(before, block@));
    }
    Ok(out)
}

/// The sections in front of the layers.
#[derive(Debug)]
pub struct Preamble {
    pub header: Header,
    pub color_mode_data: Vec<u8>,
    pub resources: ParsedResources,
}

/// [`Preamble`] as a mathematical value.
pub struct PreambleModel {
    pub header: Header,
    pub color_mode_data: Seq<u8>,
    pub resources: ResourcesModel,
}

impl View for Preamble {
    type V = PreambleModel;

    open spec fn view(&self) -> PreambleModel {
        PreambleModel {
            header: self.header,
            color_mode_data: self.color_mode_data@,
            resources: self.resources@,
        }
    }
}

/// The sections in front of the layers, and where reading them leaves the
/// cursor: the header, the colour mode data with its length, and the
/// resources.
pub open spec fn preamble_at(r: Reader) -> (PsdOutcome<PreambleModel>, Reader) {
    let (header, a) = header_at(r);
    match header {
        Err(fault) => (Err(fault), a),
        Ok(header) => match a.number(4) {
            Err(fault) => (Err(fault), a),
            Ok(len) => {
                let b = a.past(4);
                match b.next(len) {
                    Err(fault) => (Err(fault), b),
                    Ok(color_mode_data) => {
                        let (resources, c) = resources_at(b.past(len));
                        match resources {
                            Err(fault) => (Err(fault), c),
                            Ok(resources) => (
                                Ok(PreambleModel { header, color_mode_data, resources }),
                                c,
                            ),
                        }
                    },
                }
            },
        },
    }
}

/// Reads the sections in front of the layers.
pub fn read_preamble(cur: &mut Cursor) -> (r: PsdResult<Preamble>)
    ensures
        final(cur)@ == preamble_at(old(cur)@).1,
        match r {
            Ok(preamble) => preamble_at(old(cur)@).0 == PsdOutcome::<PreambleModel>::Ok(
                preamble@,
            ) && preamble.header.well_formed(),
            Err(e) => preamble_at(old(cur)@).0 == PsdOutcome::<PreambleModel>::Err(e@),
        },
{
    let header = match parse_header(cur) {
        Ok(header) => header,
        Err(e) => return Err(e),
    };
    let len: u32 = match cur.u32() {
        Ok(len) => len,
        Err(e) => return Err(e),
    };
    let color_mode_data = match cur.take(len as usize) {
        Ok(bytes) => owned(bytes),
        Err(e) => return Err(e),
    };
    let resources = match parse_image_resources(cur) {
        Ok(resources) => resources,
        Err(e) => return Err(e),
    };
    Ok(Preamble { header, color_mode_data, resources })
}

/// The name under which colour mode data is kept.
pub open spec fn mode_data_name() -> Seq<u8> {
    seq![
        'c' as u8,
        'o' as u8,
        'l' as u8,
        'o' as u8,
        'r' as u8,
        'm' as u8,
        'o' as u8,
        'd' as u8,
        'e' as u8,
        'd' as u8,
        'a' as u8,
        't' as u8,
        'a' as u8,
    ]
}

/// The resources that a document keeps: those of the file, after the
/// colour mode data where the file has any.
pub fn kept_resources(color_mode_data: Vec<u8>, preserved: Vec<PreservedResource>) -> (kept: Vec<
    PreservedResource,
>)
    ensures
        resource_list(kept@) == if color_mode_data@.len() == 0 {
            resource_list(preserved@)
        } else {
            seq![
                ResourceModel {
                    id: COLOR_MODE_DATA_SENTINEL_ID,
                    name: mode_data_name(),
                    data: color_mode_data@,
                },
            ] + resource_list(preserved@)
        },
{
    if color_mode_data.len() == 0 {
        return preserved;
    }
    let ghost data = color_mode_data@;
    let name: Vec<u8> = vec![
        0x63u8, 0x6f, 0x6c, 0x6f, 0x72, 0x6d, 0x6f, 0x64, 0x65, 0x64, 0x61, 0x74, 0x61,
    ];
    assert(name@ =~= mode_data_name());
    let ghost tail = preserved@;
    let mut kept: Vec<PreservedResource> = Vec::new();
    let first = PreservedResource { id: COLOR_MODE_DATA_SENTINEL_ID, name, data: color_mode_data };
    kept.push(first);
    let mut rest = preserved;
    kept.append(&mut rest);
    assert(resource_list(kept@) =~= seq![first@] + resource_list(tail));
    kept
}

/// A block that was read holds the bytes of the section as they stand: its
/// id, the whole name field and the data, one after the other. So what was
/// kept can be written back without loss.
pub proof fn law_blocks_are_verbatim(r: Reader)
    requires
        0 <= r.pos,
        block_at(r) is Ok,
    ensures
        ({
            let (block, next) = block_at(r)->Ok_0;
            let name_end = r.pos + 6 + block.name.len();
            let data_end = name_end + 4 + block.data.len();
            &&& data_end <= next.pos <= r.data.len()
            &&& be16(r.data, r.pos + 4) == block.id
            &&& r.data.subrange(r.pos + 6, name_end) == block.name
            &&& be32(r.data, name_end) == block.data.len()
            &&& r.data.subrange(name_end + 4, data_end) == block.data
            &&& next.pos == data_end || next.pos == data_end + 1 && block.data.len() % 2 == 1
        }),
{
    reveal_strlit("8BIM");
}

/// Whether a name is a length byte, so many bytes, and one more where that
/// makes the whole even.
pub open spec fn whole_name(name: Seq<u8>) -> bool {
    name.len() > 0 && name.len() % 2 == 0 && (name.len() == name[0] + 1 || name.len() == name[0]
        + 2)
}

/// How many bytes a block takes: its letters, its id, its name, the length
/// of its data and the data, padded to an even number.
pub open spec fn block_size(block: ResourceModel) -> int {
    10 + block.name.len() + block.data.len() as int + block.data.len() as int % 2
}

/// Whether the bytes of a block lie at `at`.
pub open spec fn holds_block(data: Seq<u8>, at: int, block: ResourceModel) -> bool {
    let n = at + 6 + block.name.len();
    &&& whole_name(block.name)
    &&& 0 <= at && at + block_size(block) <= data.len()
    &&& data.subrange(at, at + 4) == seq!['8' as u8, 'B' as u8, 'I' as u8, 'M' as u8]
    &&& holds_number(data, at + 4, block.id as int, 2, false)
    &&& data.subrange(at + 6, n) == block.name
    &&& block.data.len() < 0x1_0000_0000
    &&& holds_number(data, n, block.data.len() as int, 4, false)
    &&& data.subrange(n + 4, n + 4 + block.data.len()) == block.data
}

/// Whether bytes are blocks one after the other from `at` to the end.
pub open spec fn holds_blocks(data: Seq<u8>, at: int, list: Seq<ResourceModel>) -> bool
    decreases list.len(),
{
    if list.len() == 0 {
        at == data.len()
    } else {
        holds_block(data, at, list[0]) && holds_blocks(
            data,
            at + block_size(list[0]),
            list.drop_first(),
        )
    }
}

/// A block is read back from its bytes.
proof fn lemma_block_read(data: Seq<u8>, at: int, block: ResourceModel)
    requires
        holds_block(data, at, block),
    ensures
        block_at(Reader::at(data, at)) == PsdOutcome::<(ResourceModel, Reader)>::Ok(
            (block, Reader::at(data, at + block_size(block))),
        ),
{
    reveal_strlit("8BIM");
    let letters = data.subrange(at, at + 4);
    assert forall|i: int| 0 <= i < 4 implies #[trigger] "8BIM"@[i] as u32
        == data[at + i] as u32 by {
        assert(letters[i] == data[at + i]);
    }
    assert(tagged(data, at, "8BIM"@));
    let n = at + 6 + block.name.len();
    assert(data.subrange(at + 6, n)[0] == data[at + 6]);
    law_numbers_are_read_from_their_bytes(data, at + 4, block.id as int, false);
    law_numbers_are_read_from_their_bytes(data, n, block.data.len() as int, false);
    let len = data[at + 6] as int;
    let r = Reader::at(data, at + 6);
    assert(len % 2 == 1 ==> block.name.len() == len + 1);
    assert(len % 2 == 0 ==> block.name.len() == len + 2);
    assert(name_at(r) == PsdOutcome::<(Seq<u8>, Reader)>::Ok((block.name, Reader::at(data, n))));
    assert(data_at(Reader::at(data, n)) == PsdOutcome::<(Seq<u8>, Reader)>::Ok(
        (block.data, Reader::at(data, at + block_size(block))),
    ));
}

/// Whether block `k` is the last of a list that a test accepts.
pub open spec fn is_last(
    list: Seq<ResourceModel>,
    test: spec_fn(ResourceModel) -> bool,
    k: int,
) -> bool {
    &&& 0 <= k < list.len()
    &&& test(list[k])
    &&& forall|j: int| k < j < list.len() ==> !test(#[trigger] list[j])
}

/// Whether a test accepts no block of a list.
pub open spec fn is_none(list: Seq<ResourceModel>, test: spec_fn(ResourceModel) -> bool) -> bool {
    forall|j: int| 0 <= j < list.len() ==> !test(#[trigger] list[j])
}

/// Whether a block gives a resolution: its id says so and it is long
/// enough to hold one.
pub open spec fn gives_resolution() -> spec_fn(ResourceModel) -> bool {
    |block: ResourceModel| block.id == 1005 && block.data.len() >= 4
}

/// Whether a block is a colour profile.
pub open spec fn gives_profile() -> spec_fn(ResourceModel) -> bool {
    |block: ResourceModel| block.id == 1039
}

/// What resources become when a list of blocks is read after them.
pub open spec fn joined_by(
    before: ResourcesModel,
    list: Seq<ResourceModel>,
    after: ResourcesModel,
) -> bool {
    &&& after.preserved == before.preserved + list
    &&& is_none(list, gives_resolution()) ==> after.resolution == before.resolution
    &&& forall|k: int|
        is_last(list, gives_resolution(), k) ==> after.resolution == Some(
            be32(#[trigger] list[k].data, 0) as u32,
        )
    &&& is_none(list, gives_profile()) ==> after.icc_profile == before.icc_profile
    &&& forall|k: int|
        is_last(list, gives_profile(), k) ==> after.icc_profile == Some(#[trigger] list[k].data)
}

proof fn lemma_joined_after(
    before: ResourcesModel,
    list: Seq<ResourceModel>,
    after: ResourcesModel,
)
    requires
        list.len() > 0,
        joined_by(with_block(before, list[0]), list.drop_first(), after),
    ensures
        joined_by(before, list, after),
{
    let rest = list.drop_first();
    let mid = with_block(before, list[0]);
    assert(mid.preserved + rest =~= before.preserved + list);
    assert forall|test: spec_fn(ResourceModel) -> bool| #[trigger] is_none(list, test) implies
        is_none(rest, test) && !test(list[0]) by {
        assert forall|j: int| 0 <= j < rest.len() implies !test(#[trigger] rest[j]) by {
            assert(rest[j] == list[j + 1]);
        }
    }
    assert forall|test: spec_fn(ResourceModel) -> bool, k: int| #[trigger]
        is_last(list, test, k) implies if k == 0 {
        is_none(rest, test)
    } else {
        is_last(rest, test, k - 1)
    } by {
        assert forall|j: int| k - 1 < j < rest.len() implies !test(#[trigger] rest[j]) by {
            assert(rest[j] == list[j + 1]);
        }
    }
    assert forall|k: int| is_last(list, gives_resolution(), k) implies after.resolution == Some(
        be32(#[trigger] list[k].data, 0) as u32,
    ) by {
        if k > 0 {
            assert(is_last(rest, gives_resolution(), k - 1));
            assert(rest[k - 1].data == list[k].data);
        }
    }
    assert forall|k: int| is_last(list, gives_profile(), k) implies after.icc_profile == Some(
        #[trigger] list[k].data,
    ) by {
        if k > 0 {
            assert(is_last(rest, gives_profile(), k - 1));
            assert(rest[k - 1].data == list[k].data);
        }
    }
}

proof fn lemma_blocks_read(
    data: Seq<u8>,
    at: int,
    list: Seq<ResourceModel>,
    before: ResourcesModel,
)
    requires
        0 <= at,
        holds_blocks(data, at, list),
    ensures
        blocks_at(Reader::at(data, at), before) is Ok,
        joined_by(before, list, blocks_at(Reader::at(data, at), before)->Ok_0),
    decreases list.len(),
{
    if list.len() == 0 {
        assert(before.preserved + list =~= before.preserved);
    } else {
        lemma_block_read(data, at, list[0]);
        let next = at + block_size(list[0]);
        lemma_blocks_read(data, next, list.drop_first(), with_block(before, list[0]));
        lemma_joined_after(before, list, blocks_at(Reader::at(data, at), before)->Ok_0);
    }
}

proof fn lemma_section_read(r: Reader, section: Seq<u8>)
    requires
        0 <= r.pos,
        section.len() < 0x1_0000_0000,
        holds_number(r.data, r.pos, section.len() as int, 4, false),
        r.pos + 4 + section.len() <= r.data.len(),
        r.data.subrange(r.pos + 4, r.pos + 4 + section.len()) == section,
    ensures
        resources_at(r) == (
            blocks_at(Reader::at(section, 0), no_resources()),
            r.past((4 + section.len()) as int),
        ),
{
    law_numbers_are_read_from_their_bytes(r.data, r.pos, section.len() as int, false);
}

proof fn lemma_joined_to_none(list: Seq<ResourceModel>, all: ResourcesModel)
    requires
        joined_by(no_resources(), list, all),
    ensures
        all.preserved == list,
        is_none(list, gives_resolution()) ==> all.resolution is None,
        is_none(list, gives_profile()) ==> all.icc_profile is None,
{
    assert(no_resources().preserved + list =~= list);
}

/// The resources that a section was written with are read back, all of them
/// and in their order. The resolution is that of the last block that gives
/// one, and so is the profile; without such a block there is none.
pub proof fn law_resources_are_read_back(r: Reader, section: Seq<u8>, list: Seq<ResourceModel>)
    requires
        0 <= r.pos,
        section.len() < 0x1_0000_0000,
        holds_number(r.data, r.pos, section.len() as int, 4, false),
        r.pos + 4 + section.len() <= r.data.len(),
        r.data.subrange(r.pos + 4, r.pos + 4 + section.len()) == section,
        holds_blocks(section, 0, list),
    ensures
        ({
            let (found, next) = resources_at(r);
            &&& next == r.past((4 + section.len()) as int)
            &&& found matches Ok(all) && {
                &&& all.preserved == list
                &&& is_none(list, gives_resolution()) ==> all.resolution is None
                &&& forall|k: int|
                    is_last(list, gives_resolution(), k) ==> all.resolution == Some(
                        be32(#[trigger] list[k].data, 0) as u32,
                    )
                &&& is_none(list, gives_profile()) ==> all.icc_profile is None
                &&& forall|k: int|
                    is_last(list, gives_profile(), k) ==> all.icc_profile == Some(
                        #[trigger] list[k].data,
                    )
            }
        }),
{
    lemma_section_read(r, section);
    lemma_blocks_read(section, 0, list, no_resources());
    lemma_joined_to_none(list, blocks_at(Reader::at(section, 0), no_resources())->Ok_0);
}

/// The sections in front of the layers are read back from their bytes: the
/// header, the colour mode data and the resources, in that order.
pub proof fn law_a_preamble_is_read_back(
    r: Reader,
    header: Header,
    mode_data: Seq<u8>,
    section: Seq<u8>,
    list: Seq<ResourceModel>,
)
    requires
        header.well_formed(),
        holds_header(r.data, r.pos, header),
        mode_data.len() < 0x1_0000_0000,
        section.len() < 0x1_0000_0000,
        r.pos + 34 + mode_data.len() + section.len() <= r.data.len(),
        holds_number(r.data, r.pos + 26, mode_data.len() as int, 4, false),
        r.data.subrange(r.pos + 30, r.pos + 30 + mode_data.len()) == mode_data,
        holds_number(
            r.data,
            r.pos + 30 + mode_data.len(),
            section.len() as int,
            4,
            false,
        ),
        r.data.subrange(
            r.pos + 34 + mode_data.len(),
            r.pos + 34 + mode_data.len() + section.len(),
        ) == section,
        holds_blocks(section, 0, list),
    ensures
        ({
            let (found, next) = preamble_at(r);
            &&& next == r.past((34 + mode_data.len() + section.len()) as int)
            &&& found matches Ok(all) && {
                &&& all.header == header
                &&& all.color_mode_data == mode_data
                &&& all.resources.preserved == list
            }
        }),
{
    law_a_header_is_read_back(r, header);
    law_numbers_are_read_from_their_bytes(
        r.data,
        r.pos + 26,
        mode_data.len() as int,
        false,
    );
    law_resources_are_read_back(r.past((30 + mode_data.len()) as int), section, list);
}

} // verus!
