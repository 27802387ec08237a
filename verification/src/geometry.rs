//! Which publications may replace the live generation.

use std::sync::Arc;

use vstd::prelude::*;

use crate::text::{decimal, digits};

verus! {

/// What identifies the live generation's geometry.
#[derive(Clone, Debug, PartialEq, Eq)]
pub struct LiveGeometry {
    pub prefix: String,
    pub segments_version: u64,
    pub watermark: u64,
}

/// A generation's geometry, offered in place of the live one. The overlay and the buffer are no part
/// of it: they carry forward from whatever generation is live at the swap.
pub struct GeometryPublication<B, D, T, R> {
    pub prefix: String,
    pub segments_version: u64,
    pub watermark: u64,
    pub bundle: Arc<B>,
    pub dict: Arc<D>,
    pub delta_postings: Vec<Arc<T>>,
    /// What a publication into a new prefix carries; none within the live one.
    pub rotation: Option<R>,
}

impl<B, D, T, R> GeometryPublication<B, D, T, R> {
    /// A publication within the live prefix, which a flush and a merge make.
    pub fn within_prefix(
        prefix: String,
        segments_version: u64,
        watermark: u64,
        bundle: Arc<B>,
        dict: Arc<D>,
        delta_postings: Vec<Arc<T>>,
    ) -> (publication: Self)
        ensures
            publication == (GeometryPublication {
                prefix,
                segments_version,
                watermark,
                bundle,
                dict,
                delta_postings,
                rotation: None::<R>,
            }),
    {
        GeometryPublication {
            prefix,
            segments_version,
            watermark,
            bundle,
            dict,
            delta_postings,
            rotation: None,
        }
    }

    /// The publication into a new prefix, which a fold makes.
    pub fn rotating(self, rotation: R) -> (publication: Self)
        ensures
            publication == (GeometryPublication { rotation: Some(rotation), ..self }),
    {
        GeometryPublication {
            prefix: self.prefix,
            segments_version: self.segments_version,
            watermark: self.watermark,
            bundle: self.bundle,
            dict: self.dict,
            delta_postings: self.delta_postings,
            rotation: Some(rotation),
        }
    }
}

/// Why a publication was refused.
#[derive(Clone, Copy, Debug, PartialEq, Eq, Structural)]
pub enum GeometryRefusedReason {
    /// The offered `segments_version` does not strictly exceed the live one.
    SegmentsVersionNotIncreasing,
    /// The offered `watermark` is behind the live one.
    WatermarkRegresses,
}

impl GeometryRefusedReason {
    /// What the reason says.
    pub open spec fn text(self) -> Seq<char> {
        match self {
            GeometryRefusedReason::SegmentsVersionNotIncreasing => "segments_version must strictly increase; the row-projection cache keys on it, so a bundle swap that left it unchanged would serve a projection built against the old row space to a request answered from the new one (I11)"@,
            GeometryRefusedReason::WatermarkRegresses => "the watermark may not move backwards: composition treats every entity at or above it as buffered rather than rowed, so lowering it hides every entity between the two values from every principal until the next flush raises it again"@,
        }
    }

    /// The reason in words.
    pub fn message(&self) -> (text: String)
        ensures
            text@ == self.text(),
    {
        match self {
            GeometryRefusedReason::SegmentsVersionNotIncreasing => String::from_str(
                "segments_version must strictly increase; the row-projection cache keys on it, so a bundle swap that left it unchanged would serve a projection built against the old row space to a request answered from the new one (I11)",
            ),
            GeometryRefusedReason::WatermarkRegresses => String::from_str(
                "the watermark may not move backwards: composition treats every entity at or above it as buffered rather than rowed, so lowering it hides every entity between the two values from every principal until the next flush raises it again",
            ),
        }
    }
}

/// A publication that is refused.
#[derive(Clone, Debug, PartialEq, Eq)]
pub struct GeometryRefused {
    pub live_prefix: String,
    pub live_segments_version: u64,
    pub offered_prefix: String,
    pub offered_segments_version: u64,
    pub reason: GeometryRefusedReason,
}

impl GeometryRefused {
    fn new(
        live: &LiveGeometry,
        prefix: &str,
        segments_version: u64,
        reason: GeometryRefusedReason,
    ) -> (refused: Self)
        ensures
            refused.live_prefix@ == live.prefix@,
            refused.live_segments_version == live.segments_version,
            refused.offered_prefix@ == prefix@,
            refused.offered_segments_version == segments_version,
            refused.reason == reason,
    {
        GeometryRefused {
            live_prefix: String::from_str(live.prefix.as_str()),
            live_segments_version: live.segments_version,
            offered_prefix: String::from_str(prefix),
            offered_segments_version: segments_version,
            reason,
        }
    }

    /// The refusal in words: both identities, and the reason.
    pub fn message(&self) -> (text: String)
        ensures
            text@ == "refusing to publish geometry ('"@ + self.offered_prefix@ + "', "@ + digits(
                self.offered_segments_version as nat,
            ) + ") over live ('"@ + self.live_prefix@ + "', "@ + digits(
                self.live_segments_version as nat,
            ) + "): "@ + self.reason.text(),
    {
        String::from_str("refusing to publish geometry ('").concat(
            self.offered_prefix.as_str(),
        ).concat("', ").concat(decimal(self.offered_segments_version).as_str()).concat(
            ") over live ('",
        ).concat(self.live_prefix.as_str()).concat("', ").concat(
            decimal(self.live_segments_version).as_str(),
        ).concat("): ").concat(self.reason.message().as_str())
    }
}

/// Why `segments_version` and `watermark` may not replace the live ones, if they may not. The
/// version is looked at first.
pub open spec fn refusal(
    live_segments_version: u64,
    live_watermark: u64,
    segments_version: u64,
    watermark: u64,
) -> Option<GeometryRefusedReason> {
    if segments_version <= live_segments_version {
        Some(GeometryRefusedReason::SegmentsVersionNotIncreasing)
    } else if watermark < live_watermark {
        Some(GeometryRefusedReason::WatermarkRegresses)
    } else {
        None
    }
}

/// Whether a publication may replace the live geometry: `segments_version` must strictly increase
/// and the watermark may not regress.
pub fn check_publishable(
    live: &LiveGeometry,
    prefix: &str,
    segments_version: u64,
    watermark: u64,
) -> (out: Result<(), GeometryRefused>)
    ensures
        out is Ok <==> refusal(
            live.segments_version,
            live.watermark,
            segments_version,
            watermark,
        ) is None,
        out matches Err(refused) ==> {
            &&& refusal(live.segments_version, live.watermark, segments_version, watermark) == Some(
                refused.reason,
            )
            &&& refused.live_prefix@ == live.prefix@
            &&& refused.live_segments_version == live.segments_version
            &&& refused.offered_prefix@ == prefix@
            &&& refused.offered_segments_version == segments_version
        },
{
    if segments_version <= live.segments_version {
        return Err(
            GeometryRefused::new(
                live,
                prefix,
                segments_version,
                GeometryRefusedReason::SegmentsVersionNotIncreasing,
            ),
        );
    }
    if watermark < live.watermark {
        return Err(
            GeometryRefused::new(
                live,
                prefix,
                segments_version,
                GeometryRefusedReason::WatermarkRegresses,
            ),
        );
    }
    Ok(())
}

/// The ordered scalars a side-manifest carries.
#[derive(Clone, Copy, Debug, PartialEq, Eq, Structural)]
pub struct ManifestScalars {
    pub watermark: u64,
    pub entity_id_high_water: u64,
}

/// A durable scalar that a side-manifest write would move backwards.
#[derive(Clone, Debug, PartialEq, Eq)]
pub struct ManifestRegression {
    pub field: String,
    pub live: u64,
    pub offered: u64,
}

impl ManifestRegression {
    /// The refusal in words.
    pub fn message(&self) -> (text: String)
        ensures
            text@ == "refusing a side-manifest whose `"@ + self.field@ + "` ("@ + digits(
                self.offered as nat,
            ) + ") is behind the live manifest's ("@ + digits(self.live as nat)
                + "): the disc is what a restart believes, and a regressed value there under-reports durably while the running process keeps serving the right one"@,
    {
        String::from_str("refusing a side-manifest whose `").concat(self.field.as_str()).concat(
            "` (",
        ).concat(decimal(self.offered).as_str()).concat(") is behind the live manifest's (").concat(
            decimal(self.live).as_str(),
        ).concat(
            "): the disc is what a restart believes, and a regressed value there under-reports durably while the running process keeps serving the right one",
        )
    }
}

/// Whether `next` may be committed over `live`: no ordered scalar may regress. The watermark is
/// looked at first.
pub fn check_manifest_publishable(live: &ManifestScalars, next: &ManifestScalars) -> (out: Result<
    (),
    ManifestRegression,
>)
    ensures
        out is Ok <==> next.watermark >= live.watermark && next.entity_id_high_water
            >= live.entity_id_high_water,
        out matches Err(why) ==> if next.watermark < live.watermark {
            why.field@ == "watermark"@ && why.live == live.watermark && why.offered
                == next.watermark
        } else {
            why.field@ == "entity_id_high_water"@ && why.live == live.entity_id_high_water
                && why.offered == next.entity_id_high_water
        },
{
    if next.watermark < live.watermark {
        return Err(
            ManifestRegression {
                field: String::from_str("watermark"),
                live: live.watermark,
                offered: next.watermark,
            },
        );
    }
    if next.entity_id_high_water < live.entity_id_high_water {
        return Err(
            ManifestRegression {
                field: String::from_str("entity_id_high_water"),
                live: live.entity_id_high_water,
                offered: next.entity_id_high_water,
            },
        );
    }
    Ok(())
}

/// Whether the publication at `i` was admitted over the one before it.
pub open spec fn follows(versions: Seq<u64>, watermarks: Seq<u64>, i: int) -> bool {
    refusal(versions[i - 1], watermarks[i - 1], versions[i], watermarks[i]) is None
}

/// Publications that are admitted one after another carry strictly increasing segments versions
/// and watermarks that never fall, so no two of them share a version.
pub proof fn law_admitted_publications_ascend(versions: Seq<u64>, watermarks: Seq<u64>)
    requires
        versions.len() == watermarks.len(),
        forall|i: int| 0 < i < versions.len() ==> #[trigger] follows(versions, watermarks, i),
    ensures
        forall|i: int, j: int| 0 <= i < j < versions.len() ==> versions[i] < versions[j],
        forall|i: int, j: int| 0 <= i < j < versions.len() ==> watermarks[i] <= watermarks[j],
{
    assert forall|i: int, j: int| 0 <= i < j < versions.len() implies versions[i]
        < versions[j] by {
        lemma_ascend(versions, watermarks, i, j);
    }
    assert forall|i: int, j: int| 0 <= i < j < versions.len() implies watermarks[i]
        <= watermarks[j] by {
        lemma_ascend(versions, watermarks, i, j);
    }
}

proof fn lemma_ascend(versions: Seq<u64>, watermarks: Seq<u64>, i: int, j: int)
    requires
        versions.len() == watermarks.len(),
        0 <= i < j < versions.len(),
        forall|i: int| 0 < i < versions.len() ==> #[trigger] follows(versions, watermarks, i),
    ensures
        versions[i] < versions[j],
        watermarks[i] <= watermarks[j],
    decreases j - i,
{
    assert(follows(versions, watermarks, j));
    if i < j - 1 {
        lemma_ascend(versions, watermarks, i, j - 1);
    }
}

/// A publication is admitted exactly where its version is above the live one and its watermark is
/// not below the live one; a version that does not rise is refused as that, whatever the watermark.
pub proof fn law_a_publication_is_admitted_where_it_moves_on(
    live: LiveGeometry,
    segments_version: u64,
    watermark: u64,
)
    ensures
        ({
            let why = refusal(live.segments_version, live.watermark, segments_version, watermark);
            &&& why is None <==> segments_version > live.segments_version && watermark
                >= live.watermark
            &&& why == Some(GeometryRefusedReason::SegmentsVersionNotIncreasing) <==> segments_version
                <= live.segments_version
            &&& why == Some(GeometryRefusedReason::WatermarkRegresses) <==> segments_version
                > live.segments_version && watermark < live.watermark
        }),
{
}

} // verus!
