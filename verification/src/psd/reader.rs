//! The sections of a PSD or PSB file, stitched together.

use crate::psd::cursor::{Cursor, Reader};
use crate::psd::header::Header;
use crate::psd::image_data::{
    background_of, background_planes, composite_outcome, image_data_at, parse_image_data,
    BackgroundPlanes, CompositePlanes,
};
use crate::psd::resources::{
    kept_resources, mode_data_name, preamble_at, read_preamble, resource_list, PreambleModel,
    PreservedResource, ResourceModel, COLOR_MODE_DATA_SENTINEL_ID,
};
use crate::psd::{deep_psd_outcome, PsdOutcome, PsdResult};
use crate::raw::frame::maybe_bytes;
use vstd::prelude::*;

verus! {

/// What the layer section of a file was found to hold: whether there is
/// any layer, whether the merged image has transparency, and how many
/// bytes the section takes.
#[derive(Debug, Clone, Copy, PartialEq, Eq, Structural)]
pub struct LayerSection {
    pub any: bool,
    pub merged_alpha: bool,
    pub size: usize,
}

/// A file's sections, but for the layers.
#[derive(Debug)]
pub struct PsdFile {
    pub header: Header,
    /// The resources to keep, after the colour mode data where there is
    /// any.
    pub resources: Vec<PreservedResource>,
    /// Pixels an inch, in units of a 65536th.
    pub resolution: Option<u32>,
    pub icc_profile: Option<Vec<u8>>,
    /// The merged image of a flattened file.
    pub background: Option<CompositePlanes>,
    /// Which of its planes are colours.
    pub planes: Option<BackgroundPlanes>,
}

/// [`PsdFile`] as a mathematical value.
pub struct PsdFileModel {
    pub header: Header,
    pub resources: Seq<ResourceModel>,
    pub resolution: Option<u32>,
    pub icc_profile: Option<Seq<u8>>,
    pub background: Option<Seq<Seq<u8>>>,
}

/// Optional planes as a mathematical value.
pub open spec fn maybe_planes(planes: Option<CompositePlanes>) -> Option<Seq<Seq<u8>>> {
    match planes {
        Some(planes) => Some(planes@),
        None => None,
    }
}

impl View for PsdFile {
    type V = PsdFileModel;

    open spec fn view(&self) -> PsdFileModel {
        PsdFileModel {
            header: self.header,
            resources: resource_list(self.resources@),
            resolution: self.resolution,
            icc_profile: maybe_bytes(self.icc_profile),
            background: maybe_planes(self.background),
        }
    }
}

/// The resources that a document keeps of a preamble.
pub open spec fn kept(preamble: PreambleModel) -> Seq<ResourceModel> {
    if preamble.color_mode_data.len() == 0 {
        preamble.resources.preserved
    } else {
        seq![
            ResourceModel {
                id: COLOR_MODE_DATA_SENTINEL_ID,
                name: mode_data_name(),
                data: preamble.color_mode_data,
            },
        ] + preamble.resources.preserved
    }
}

/// What a file reads as, given what its layer section was found to hold.
/// The merged image is only read when the file is flattened.
pub open spec fn file_of(bytes: Seq<u8>, layers: PsdOutcome<LayerSection>) -> PsdOutcome<
    PsdFileModel,
> {
    let (preamble, r) = preamble_at(Reader::start(bytes));
    match preamble {
        Err(fault) => Err(fault),
        Ok(preamble) => match layers {
            Err(fault) => Err(fault),
            Ok(layers) => {
                let background = if layers.any {
                    Ok(None)
                } else {
                    match r.next(layers.size as int) {
                        Err(fault) => Err(fault),
                        Ok(_) => image_data_at(r.past(layers.size as int), preamble.header).0,
                    }
                };
                match background {
                    Err(fault) => Err(fault),
                    Ok(background) => Ok(
                        PsdFileModel {
                            header: preamble.header,
                            resources: kept(preamble),
                            resolution: preamble.resources.resolution,
                            icc_profile: preamble.resources.icc_profile,
                            background,
                        },
                    ),
                }
            },
        },
    }
}

fn read_background(cur: &mut Cursor, header: &Header, layers: LayerSection) -> (r: PsdResult<
    Option<CompositePlanes>,
>)
    requires
        header.well_formed(),
    ensures
        composite_outcome(r) == if layers.any {
            PsdOutcome::<Option<Seq<Seq<u8>>>>::Ok(None)
        } else {
            match old(cur)@.next(layers.size as int) {
                Err(fault) => PsdOutcome::<Option<Seq<Seq<u8>>>>::Err(fault),
                Ok(_) => image_data_at(old(cur)@.past(layers.size as int), *header).0,
            }
        },
{
    if layers.any {
        return Ok(None);
    }
    match cur.skip(layers.size) {
        Ok(_) => {},
        Err(e) => return Err(e),
    }
    proof {
        assert(header.channels * header.height <= 56 * 300000) by (nonlinear_arith)
            requires
                0 <= header.channels <= 56,
                0 <= header.height <= 300000,
        ;
    }
    parse_image_data(cur, header)
}

/// Reads a PSD (version 1) or PSB (version 2) file, given what its layer
/// section was found to hold.
pub fn read_psd(bytes: &[u8], layers: PsdResult<LayerSection>) -> (r: PsdResult<PsdFile>)
    ensures
        deep_psd_outcome(r) == file_of(bytes@, crate::psd::psd_outcome(layers)),
        r matches Ok(file) ==> file.header.well_formed() && layers is Ok && file.planes == (
        if file.background is Some {
            Some(background_of(file.header, layers->Ok_0.merged_alpha))
        } else {
            None
        }),
{
    let mut cur = Cursor::new(bytes);
    let preamble = match read_preamble(&mut cur) {
        Ok(preamble) => preamble,
        Err(e) => return Err(e),
    };
    let layers: LayerSection = match layers {
        Ok(layers) => layers,
        Err(e) => return Err(e),
    };
    let background = match read_background(&mut cur, &preamble.header, layers) {
        Ok(background) => background,
        Err(e) => return Err(e),
    };
    let planes: Option<BackgroundPlanes> = if background.is_some() {
        Some(background_planes(&preamble.header, layers.merged_alpha))
    } else {
        None
    };
    let header = preamble.header;
    let resolution: Option<u32> = preamble.resources.resolution;
    let resources = kept_resources(preamble.color_mode_data, preamble.resources.preserved);
    Ok(
        PsdFile {
            header,
            resources,
            resolution,
            icc_profile: preamble.resources.icc_profile,
            background,
            planes,
        },
    )
}

} // verus!
