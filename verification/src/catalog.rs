//! Channel catalog: which datasets are playable, and how.
//!
//! The array-file engine reports the datasets of the open file as plain
//! descriptors.  This module decides, for each descriptor, whether it is a
//! playable channel: auxiliary datasets (timestamp companions) are skipped
//! outright; a dataset whose companion timestamp dataset cannot be
//! resolved, whose time dimension is unknown, or whose element type has no
//! decoder is dropped with one diagnostic naming it; the rest become
//! channels with dense, host-visible ids.

use vstd::prelude::*;

use crate::text::bytes_of;
use crate::text::contains_fragment;
use crate::text::equals_with_suffix;
use crate::text::has_fragment;
use crate::text::str_eq_bytes;

verus! {

use vstd::string::StringSliceAdditionalSpecFns;

/// The element class of a dataset, as reported by the array-file engine.
/// Unknown class codes map to `Unsupported` so that new codes degrade to a
/// diagnostic instead of a failure.
#[derive(Debug, Clone, Copy, PartialEq, Eq, Structural)]
pub enum DatasetType {
    Integer,
    Float,
    Time,
    String,
    Bitfield,
    Opaque,
    Compound,
    Reference,
    Enum,
    Vlen,
    Array,
    Complex,
    Nclasses,
    Unsupported,
}

/// The variant that an engine type-class code maps to.
pub open spec fn spec_from_type(val: i32) -> DatasetType {
    if val == 0 {
        DatasetType::Integer
    } else if val == 1 {
        DatasetType::Float
    } else if val == 2 {
        DatasetType::Time
    } else if val == 3 {
        DatasetType::String
    } else if val == 4 {
        DatasetType::Bitfield
    } else if val == 5 {
        DatasetType::Opaque
    } else if val == 6 {
        DatasetType::Compound
    } else if val == 7 {
        DatasetType::Reference
    } else if val == 8 {
        DatasetType::Enum
    } else if val == 9 {
        DatasetType::Vlen
    } else if val == 10 {
        DatasetType::Array
    } else if val == 11 {
        DatasetType::Complex
    } else if val == 12 {
        DatasetType::Nclasses
    } else {
        DatasetType::Unsupported
    }
}

/// The diagnostic label of each dataset type.
pub open spec fn spec_label(t: DatasetType) -> Seq<char> {
    match t {
        DatasetType::Integer => "Integer"@,
        DatasetType::Float => "Float"@,
        DatasetType::Time => "Time"@,
        DatasetType::String => "String"@,
        DatasetType::Bitfield => "Bitfield"@,
        DatasetType::Opaque => "Opaque"@,
        DatasetType::Compound => "Compound"@,
        DatasetType::Reference => "Reference"@,
        DatasetType::Enum => "Enum"@,
        DatasetType::Vlen => "Vlen"@,
        DatasetType::Array => "Array"@,
        DatasetType::Complex => "Complex"@,
        DatasetType::Nclasses => "Nclasses"@,
        DatasetType::Unsupported => "Unsupported"@,
    }
}

impl DatasetType {
    /// The dataset type for an engine type-class code.
    pub fn from_type(val: i32) -> (r: Self)
        ensures
            r == spec_from_type(val),
    {
        match val {
            0 => Self::Integer,
            1 => Self::Float,
            2 => Self::Time,
            3 => Self::String,
            4 => Self::Bitfield,
            5 => Self::Opaque,
            6 => Self::Compound,
            7 => Self::Reference,
            8 => Self::Enum,
            9 => Self::Vlen,
            10 => Self::Array,
            11 => Self::Complex,
            12 => Self::Nclasses,
            _ => Self::Unsupported,
        }
    }

    /// A short name for the type, for diagnostics.
    pub fn label(&self) -> (r: &'static str)
        ensures
            r@ == spec_label(*self),
    {
        match self {
            Self::Integer => "Integer",
            Self::Float => "Float",
            Self::Time => "Time",
            Self::String => "String",
            Self::Bitfield => "Bitfield",
            Self::Opaque => "Opaque",
            Self::Compound => "Compound",
            Self::Reference => "Reference",
            Self::Enum => "Enum",
            Self::Vlen => "Vlen",
            Self::Array => "Array",
            Self::Complex => "Complex",
            Self::Nclasses => "Nclasses",
            Self::Unsupported => "Unsupported",
        }
    }
}

/// A dataset attribute, as far as channel planning reads them: strings,
/// object references (by the referenced dataset's name), and
/// variable-length lists of further attributes.  Anything else is carried
/// as an opaque description.
#[derive(Debug)]
pub enum Attribute {
    Str(String),
    Vlen(Vec<Attribute>),
    Reference(String),
    Unknown(String),
}

/// A dataset descriptor, as handed over by the array-file engine: name,
/// element class, dimension extents, attributes, and the position of the
/// time dimension if the engine identified one.
#[derive(Debug)]
pub struct Dataset {
    pub name: String,
    pub type_: DatasetType,
    pub dimensions: Vec<u64>,
    pub attrs: Vec<(String, Attribute)>,
    pub time_dimension: Option<usize>,
}

/// The UTF-8 bytes of a dataset's name.
pub open spec fn name_of(d: Dataset) -> Seq<u8> {
    bytes_of(d.name@)
}

/// Whether a dataset is an auxiliary timestamp companion, by naming
/// convention.
pub open spec fn spec_is_aux(d: Dataset) -> bool {
    has_fragment(name_of(d), bytes_of(".timestamp"@))
}

/// Whether a name suggests a time axis.
pub open spec fn spec_is_timeish(n: Seq<u8>) -> bool {
    has_fragment(n, bytes_of("time"@)) || has_fragment(n, bytes_of("Time"@))
}

/// Whether a dataset is treated as an image channel: an image-suggesting
/// name together with three dimensions (time, height, width) or four
/// (time, height, width, components).
pub open spec fn spec_is_image_topic(d: Dataset) -> bool {
    &&& {
        ||| has_fragment(name_of(d), bytes_of("image"@))
        ||| has_fragment(name_of(d), bytes_of("camera"@))
        ||| has_fragment(name_of(d), bytes_of("video"@))
        ||| has_fragment(name_of(d), bytes_of("depth"@))
    }
    &&& (d.dimensions@.len() == 3 || d.dimensions@.len() == 4)
}

impl Dataset {
    /// Whether this dataset is classified as an image channel.
    pub fn is_image_topic(&self) -> (r: bool)
        ensures
            r == spec_is_image_topic(*self),
    {
        let is_image_name = contains_fragment(self.name.as_str(), "image") || contains_fragment(
            self.name.as_str(),
            "camera",
        ) || contains_fragment(self.name.as_str(), "video") || contains_fragment(
            self.name.as_str(),
            "depth",
        );
        let is_image_dimensions = self.dimensions.len() == 3 || self.dimensions.len() == 4;
        is_image_name && is_image_dimensions
    }

    /// The extent of the time dimension, if one was identified.
    pub fn time_dimension_count(&self) -> (r: Option<u64>)
        requires
            self.time_dimension matches Some(td) ==> td < self.dimensions@.len(),
        ensures
            r == (match self.time_dimension {
                Some(td) => Some(self.dimensions@[td as int]),
                None => None::<u64>,
            }),
    {
        match self.time_dimension {
            Some(td) => Some(self.dimensions[td]),
            None => None,
        }
    }
}

/// Why a dataset was dropped from the catalog.
#[derive(Debug, Clone, Copy, PartialEq, Eq, Structural)]
pub enum SkipReason {
    /// No companion timestamp dataset could be resolved.
    MissingTimestamps,
    /// A companion exists, but the dataset's time dimension is unknown.
    UnknownTimeDimension,
    /// The element type has no decoder.
    UnsupportedType(DatasetType),
}

/// One non-fatal diagnostic: the dataset that was dropped, and why.
#[derive(Debug, Clone)]
pub struct Diagnostic {
    pub dataset: String,
    pub reason: SkipReason,
}

/// How a channel's records are decoded.
#[derive(Debug, Clone, Copy, PartialEq, Eq, Structural)]
pub enum DecodeKind {
    IntegerRaw,
    FloatRaw,
    Mono16Image,
    Rgb8Image,
}

/// One planned channel: its dense host-visible id, the dataset it plays,
/// the companion timestamp dataset, the decoder, and whether the channel
/// is the image rendering of its dataset (which the host reflects in the
/// topic name).
#[derive(Debug, Clone)]
pub struct ChannelPlan {
    pub id: u16,
    pub dataset: usize,
    pub timestamp_dataset: usize,
    pub decode: DecodeKind,
    pub as_image: bool,
}

/// The catalog decision for a whole file: the playable channels in order,
/// and one diagnostic per dropped dataset.
#[derive(Debug)]
pub struct CatalogPlan {
    pub channels: Vec<ChannelPlan>,
    pub diagnostics: Vec<Diagnostic>,
}

/// The first dataset at or after position `j` whose name bytes equal
/// `target`.
pub open spec fn find_named_from(ds: Seq<Dataset>, target: Seq<u8>, j: int) -> Option<int>
    decreases ds.len() - j,
{
    if j < 0 || j >= ds.len() {
        None
    } else if name_of(ds[j]) == target {
        Some(j)
    } else {
        find_named_from(ds, target, j + 1)
    }
}

/// A result of `find_named_from` is a position of a dataset with the
/// target name.
pub proof fn lemma_find_named_range(ds: Seq<Dataset>, target: Seq<u8>, j: int)
    ensures
        match find_named_from(ds, target, j) {
            Some(p) => j <= p < ds.len() && name_of(ds[p]) == target,
            None => true,
        },
    decreases ds.len() - j,
{
    if j < 0 || j >= ds.len() {
    } else if name_of(ds[j]) == target {
    } else {
        lemma_find_named_range(ds, target, j + 1);
    }
}

/// The first attribute with key `key`, if any.
pub open spec fn attr_named(attrs: Seq<(String, Attribute)>, key: Seq<u8>) -> Option<Attribute>
    decreases attrs.len(),
{
    if attrs.len() == 0 {
        None
    } else if bytes_of(attrs[0].0@) == key {
        Some(attrs[0].1)
    } else {
        attr_named(attrs.drop_first(), key)
    }
}

/// The names carried by the `Reference` entries of an attribute list, in
/// order.
pub open spec fn reference_names(v: Seq<Attribute>) -> Seq<Seq<u8>>
    decreases v.len(),
{
    if v.len() == 0 {
        Seq::empty()
    } else {
        let rest = reference_names(v.drop_last());
        match v.last() {
            Attribute::Reference(n) => rest.push(bytes_of(n@)),
            _ => rest,
        }
    }
}

/// The dimension references of a dataset: the `Reference` names inside its
/// `DIMENSION_LIST` attribute, if it has one of list shape.
pub open spec fn dim_refs(d: Dataset) -> Seq<Seq<u8>> {
    match attr_named(d.attrs@, bytes_of("DIMENSION_LIST"@)) {
        Some(Attribute::Vlen(v)) => reference_names(v@),
        _ => Seq::empty(),
    }
}

/// The companion candidate named by one reference: the dataset with that
/// name, provided its name suggests a time axis.
pub open spec fn ref_candidate(ds: Seq<Dataset>, rname: Seq<u8>) -> Option<int> {
    match find_named_from(ds, rname, 0) {
        Some(j) => if spec_is_timeish(name_of(ds[j])) {
            Some(j)
        } else {
            None
        },
        None => None,
    }
}

/// The companion selected by the dimension references: the last reference
/// that resolves to a time-suggesting dataset wins.
pub open spec fn companion_from_refs(ds: Seq<Dataset>, refs: Seq<Seq<u8>>) -> Option<int>
    decreases refs.len(),
{
    if refs.len() == 0 {
        None
    } else {
        match ref_candidate(ds, refs.last()) {
            Some(j) => Some(j),
            None => companion_from_refs(ds, refs.drop_last()),
        }
    }
}

/// The companion timestamp dataset of `ds[i]`: a time-suggesting dataset
/// named by the dimension references if there is one, else the dataset
/// named `<name>.timestamp`.
pub open spec fn companion_of(ds: Seq<Dataset>, i: int) -> Option<int> {
    match companion_from_refs(ds, dim_refs(ds[i])) {
        Some(j) => Some(j),
        None => find_named_from(ds, name_of(ds[i]) + bytes_of(".timestamp"@), 0),
    }
}

/// The channels a playable dataset contributes: its raw channel, plus an
/// image rendering when it classifies as an image.  Each entry is the
/// decoder and whether the channel is the image rendering.
pub open spec fn channel_kinds(d: Dataset) -> Seq<(DecodeKind, bool)> {
    match d.type_ {
        DatasetType::Integer => {
            if spec_is_image_topic(d) && d.dimensions@.len() == 3 {
                seq![(DecodeKind::IntegerRaw, false), (DecodeKind::Mono16Image, true)]
            } else if spec_is_image_topic(d) && d.dimensions@.len() == 4 {
                seq![(DecodeKind::IntegerRaw, false), (DecodeKind::Rgb8Image, true)]
            } else {
                seq![(DecodeKind::IntegerRaw, false)]
            }
        },
        DatasetType::Float => seq![(DecodeKind::FloatRaw, false)],
        _ => Seq::empty(),
    }
}

/// Why dataset `i` is dropped, or `None` if it is auxiliary or playable.
pub open spec fn skip_reason_of(ds: Seq<Dataset>, i: int) -> Option<SkipReason> {
    let d = ds[i];
    if spec_is_aux(d) {
        None
    } else if companion_of(ds, i) is None {
        Some(SkipReason::MissingTimestamps)
    } else if d.time_dimension is None {
        Some(SkipReason::UnknownTimeDimension)
    } else if channel_kinds(d).len() == 0 {
        Some(SkipReason::UnsupportedType(d.type_))
    } else {
        None
    }
}

/// The channels dataset `i` contributes to the catalog.
pub open spec fn planned_channels(ds: Seq<Dataset>, i: int) -> Seq<(DecodeKind, bool)> {
    let d = ds[i];
    if spec_is_aux(d) || companion_of(ds, i) is None || d.time_dimension is None {
        Seq::empty()
    } else {
        channel_kinds(d)
    }
}

/// The channel entries of each contributing dataset, tagged with the
/// dataset's position.
pub open spec fn tag_channels(s: Seq<(DecodeKind, bool)>, d: int) -> Seq<(int, DecodeKind, bool)> {
    Seq::new(s.len(), |j: int| (d, s[j].0, s[j].1))
}

/// All channels contributed by the first `n` datasets, in order.
pub open spec fn plan_chans(ds: Seq<Dataset>, n: int) -> Seq<(int, DecodeKind, bool)>
    decreases n,
{
    if n <= 0 {
        Seq::empty()
    } else {
        plan_chans(ds, n - 1) + tag_channels(planned_channels(ds, n - 1), n - 1)
    }
}

/// All diagnostics produced by the first `n` datasets, in order: the
/// dataset's position and the reason it was dropped.
pub open spec fn plan_diags(ds: Seq<Dataset>, n: int) -> Seq<(int, SkipReason)>
    decreases n,
{
    if n <= 0 {
        Seq::empty()
    } else {
        plan_diags(ds, n - 1) + (match skip_reason_of(ds, n - 1) {
            Some(r) => seq![(n - 1, r)],
            None => Seq::empty(),
        })
    }
}

/// No dataset contributes more than two channels.
pub proof fn lemma_plan_chans_len(ds: Seq<Dataset>, n: int)
    requires
        n >= 0,
    ensures
        plan_chans(ds, n).len() <= 2 * n,
    decreases n,
{
    if n > 0 {
        lemma_plan_chans_len(ds, n - 1);
    }
}

/// The dataset with the given name, searched from the front.
fn find_dataset_named(datasets: &Vec<Dataset>, target: &str) -> (r: Option<usize>)
    ensures
        (match r {
            Some(j) => Some(j as int),
            None => None::<int>,
        }) == find_named_from(datasets@, target.spec_bytes(), 0),
        r matches Some(j) ==> j < datasets@.len(),
{
    let mut j: usize = 0;
    while j < datasets.len()
        invariant
            j <= datasets@.len(),
            find_named_from(datasets@, target.spec_bytes(), 0) == find_named_from(
                datasets@,
                target.spec_bytes(),
                j as int,
            ),
        decreases datasets@.len() - j,
    {
        if str_eq_bytes(datasets[j].name.as_str(), target) {
            return Some(j);
        }
        j += 1;
    }
    None
}

/// The dataset named `<base><suffix>`, searched from the front.
fn find_dataset_with_suffix(datasets: &Vec<Dataset>, base: &str, suffix: &str) -> (r: Option<
    usize,
>)
    ensures
        (match r {
            Some(j) => Some(j as int),
            None => None::<int>,
        }) == find_named_from(datasets@, base.spec_bytes() + suffix.spec_bytes(), 0),
        r matches Some(j) ==> j < datasets@.len(),
{
    let mut j: usize = 0;
    while j < datasets.len()
        invariant
            j <= datasets@.len(),
            find_named_from(datasets@, base.spec_bytes() + suffix.spec_bytes(), 0)
                == find_named_from(datasets@, base.spec_bytes() + suffix.spec_bytes(), j as int),
        decreases datasets@.len() - j,
    {
        if equals_with_suffix(datasets[j].name.as_str(), base, suffix) {
            return Some(j);
        }
        j += 1;
    }
    None
}

/// Whether the dataset's name suggests a time axis.
fn is_timeish_name(name: &str) -> (r: bool)
    ensures
        r == spec_is_timeish(name.spec_bytes()),
{
    contains_fragment(name, "time") || contains_fragment(name, "Time")
}

/// The companion selected by the dimension references of `datasets[i]`,
/// if any: the last reference resolving to a time-suggesting dataset.
fn resolve_companion_refs(datasets: &Vec<Dataset>, i: usize) -> (r: Option<usize>)
    requires
        i < datasets@.len(),
    ensures
        (match r {
            Some(j) => Some(j as int),
            None => None::<int>,
        }) == companion_from_refs(datasets@, dim_refs(datasets@[i as int])),
        r matches Some(j) ==> j < datasets@.len(),
{
    let d = &datasets[i];
    let mut a: usize = 0;
    let nattrs = d.attrs.len();
    proof {
        assert(d.attrs@.skip(0) =~= d.attrs@);
    }
    while a < nattrs
        invariant
            a <= nattrs,
            i < datasets@.len(),
            nattrs == d.attrs@.len(),
            *d == datasets@[i as int],
            attr_named(d.attrs@, bytes_of("DIMENSION_LIST"@)) == attr_named(
                d.attrs@.skip(a as int),
                bytes_of("DIMENSION_LIST"@),
            ),
        decreases nattrs - a,
    {
        proof {
            assert(d.attrs@.skip(a as int).len() > 0);
            assert(d.attrs@.skip(a as int)[0] == d.attrs@[a as int]);
            assert(d.attrs@.skip(a as int).drop_first() =~= d.attrs@.skip(a + 1));
        }
        if str_eq_bytes(d.attrs[a].0.as_str(), "DIMENSION_LIST") {
            match &d.attrs[a].1 {
                Attribute::Vlen(items) => {
                    proof {
                        assert(attr_named(d.attrs@, bytes_of("DIMENSION_LIST"@)) == Some(
                            d.attrs@[a as int].1,
                        ));
                    }
                    let mut found: Option<usize> = None;
                    let mut e: usize = 0;
                    while e < items.len()
                        invariant
                            e <= items@.len(),
                            (match found {
                                Some(j) => Some(j as int),
                                None => None::<int>,
                            }) == companion_from_refs(
                                datasets@,
                                reference_names(items@.take(e as int)),
                            ),
                            found matches Some(j) ==> j < datasets@.len(),
                        decreases items@.len() - e,
                    {
                        proof {
                            assert(items@.take(e + 1).drop_last() =~= items@.take(e as int));
                            assert(items@.take(e + 1).last() == items@[e as int]);
                        }
                        match &items[e] {
                            Attribute::Reference(nm) => {
                                let ghost rn = reference_names(items@.take(e as int));
                                let ghost rn1 = reference_names(items@.take(e + 1));
                                proof {
                                    assert(rn1 == rn.push(bytes_of(nm@)));
                                    assert(rn1.drop_last() =~= rn);
                                    assert(rn1.last() == bytes_of(nm@));
                                }
                                match find_dataset_named(datasets, nm.as_str()) {
                                    Some(j) => {
                                        proof {
                                            lemma_find_named_range(
                                                datasets@,
                                                bytes_of(nm@),
                                                0,
                                            );
                                        }
                                        if is_timeish_name(datasets[j].name.as_str()) {
                                            found = Some(j);
                                        }
                                    },
                                    None => {},
                                }
                            },
                            _ => {
                                proof {
                                    assert(reference_names(items@.take(e + 1))
                                        == reference_names(items@.take(e as int)));
                                }
                            },
                        }
                        e += 1;
                    }
                    proof {
                        assert(items@.take(items@.len() as int) =~= items@);
                        assert(dim_refs(datasets@[i as int]) == reference_names(items@));
                    }
                    return found;
                },
                _ => {
                    proof {
                        assert(attr_named(d.attrs@, bytes_of("DIMENSION_LIST"@)) == Some(
                            d.attrs@[a as int].1,
                        ));
                        assert(companion_from_refs(
                            datasets@,
                            dim_refs(datasets@[i as int]),
                        ) is None);
                    }
                    return None;
                },
            }
        }
        a += 1;
    }
    proof {
        assert(d.attrs@.skip(nattrs as int).len() == 0);
        assert(attr_named(d.attrs@, bytes_of("DIMENSION_LIST"@)) is None);
        assert(dim_refs(datasets@[i as int]) == Seq::<Seq<u8>>::empty());
    }
    None
}

/// The companion timestamp dataset of `datasets[i]`, resolved first by the
/// dimension references and else by the `<name>.timestamp` convention.
fn resolve_companion(datasets: &Vec<Dataset>, i: usize) -> (r: Option<usize>)
    requires
        i < datasets@.len(),
    ensures
        (match r {
            Some(j) => Some(j as int),
            None => None::<int>,
        }) == companion_of(datasets@, i as int),
        r matches Some(j) ==> j < datasets@.len(),
{
    let by_refs = resolve_companion_refs(datasets, i);
    match by_refs {
        Some(j) => Some(j),
        None => {
            let r = find_dataset_with_suffix(datasets, datasets[i].name.as_str(), ".timestamp");
            proof {
                lemma_find_named_range(
                    datasets@,
                    name_of(datasets@[i as int]) + bytes_of(".timestamp"@),
                    0,
                );
            }
            r
        },
    }
}

/// Decide the whole catalog: skip auxiliary timestamp datasets; drop, with
/// one diagnostic each, datasets with no resolvable companion, no known
/// time dimension, or an unsupported element type; and give every
/// remaining dataset its channels with dense ids in dataset order.
pub fn plan_channels(datasets: &Vec<Dataset>) -> (r: CatalogPlan)
    requires
        2 * datasets@.len() <= u16::MAX + 1,
    ensures
        r.channels@.len() == plan_chans(datasets@, datasets@.len() as int).len(),
        forall|c: int|
            0 <= c < r.channels@.len() ==> {
                let m = plan_chans(datasets@, datasets@.len() as int)[c];
                &&& (#[trigger] r.channels@[c]).id == c
                &&& r.channels@[c].dataset == m.0
                &&& r.channels@[c].decode == m.1
                &&& r.channels@[c].as_image == m.2
                &&& r.channels@[c].timestamp_dataset < datasets@.len()
                &&& Some(r.channels@[c].timestamp_dataset as int) == companion_of(datasets@, m.0)
            },
        r.diagnostics@.len() == plan_diags(datasets@, datasets@.len() as int).len(),
        forall|c: int|
            0 <= c < r.diagnostics@.len() ==> {
                let m = plan_diags(datasets@, datasets@.len() as int)[c];
                &&& bytes_of((#[trigger] r.diagnostics@[c]).dataset@) == name_of(datasets@[m.0])
                &&& r.diagnostics@[c].reason == m.1
            },
{
    let mut channels: Vec<ChannelPlan> = Vec::new();
    let mut diagnostics: Vec<Diagnostic> = Vec::new();
    let mut i: usize = 0;
    while i < datasets.len()
        invariant
            i <= datasets@.len(),
            2 * datasets@.len() <= u16::MAX + 1,
            channels@.len() == plan_chans(datasets@, i as int).len(),
            forall|c: int|
                0 <= c < channels@.len() ==> {
                    let m = plan_chans(datasets@, i as int)[c];
                    &&& (#[trigger] channels@[c]).id == c
                    &&& channels@[c].dataset == m.0
                    &&& channels@[c].decode == m.1
                    &&& channels@[c].as_image == m.2
                    &&& channels@[c].timestamp_dataset < datasets@.len()
                    &&& Some(channels@[c].timestamp_dataset as int) == companion_of(
                        datasets@,
                        m.0,
                    )
                },
            diagnostics@.len() == plan_diags(datasets@, i as int).len(),
            forall|c: int|
                0 <= c < diagnostics@.len() ==> {
                    let m = plan_diags(datasets@, i as int)[c];
                    &&& bytes_of((#[trigger] diagnostics@[c]).dataset@) == name_of(
                        datasets@[m.0],
                    )
                    &&& diagnostics@[c].reason == m.1
                },
        decreases datasets@.len() - i,
    {
        proof {
            lemma_plan_chans_len(datasets@, i as int);
        }
        let d = &datasets[i];
        let is_aux = contains_fragment(d.name.as_str(), ".timestamp");
        if !is_aux {
            let companion = resolve_companion(datasets, i);
            match companion {
                None => {
                    diagnostics.push(
                        Diagnostic {
                            dataset: d.name.clone(),
                            reason: SkipReason::MissingTimestamps,
                        },
                    );
                },
                Some(ts) => {
                    if d.time_dimension.is_none() {
                        diagnostics.push(
                            Diagnostic {
                                dataset: d.name.clone(),
                                reason: SkipReason::UnknownTimeDimension,
                            },
                        );
                    } else {
                        match d.type_ {
                            DatasetType::Integer => {
                                let id = channels.len() as u16;
                                channels.push(
                                    ChannelPlan {
                                        id,
                                        dataset: i,
                                        timestamp_dataset: ts,
                                        decode: DecodeKind::IntegerRaw,
                                        as_image: false,
                                    },
                                );
                                if d.is_image_topic() {
                                    if d.dimensions.len() == 3 {
                                        let id2 = channels.len() as u16;
                                        channels.push(
                                            ChannelPlan {
                                                id: id2,
                                                dataset: i,
                                                timestamp_dataset: ts,
                                                decode: DecodeKind::Mono16Image,
                                                as_image: true,
                                            },
                                        );
                                    } else if d.dimensions.len() == 4 {
                                        let id2 = channels.len() as u16;
                                        channels.push(
                                            ChannelPlan {
                                                id: id2,
                                                dataset: i,
                                                timestamp_dataset: ts,
                                                decode: DecodeKind::Rgb8Image,
                                                as_image: true,
                                            },
                                        );
                                    }
                                }
                            },
                            DatasetType::Float => {
                                let id = channels.len() as u16;
                                channels.push(
                                    ChannelPlan {
                                        id,
                                        dataset: i,
                                        timestamp_dataset: ts,
                                        decode: DecodeKind::FloatRaw,
                                        as_image: false,
                                    },
                                );
                            },
                            _ => {
                                diagnostics.push(
                                    Diagnostic {
                                        dataset: d.name.clone(),
                                        reason: SkipReason::UnsupportedType(d.type_),
                                    },
                                );
                            },
                        }
                    }
                },
            }
        }
        i += 1;
    }
    CatalogPlan { channels, diagnostics }
}

} // verus!

use vstd::prelude::*;

verus! {

/// Every entry of the channel and diagnostic plans refers to a dataset
/// among the first `n`.
proof fn lemma_plan_entries_range(ds: Seq<Dataset>, n: int)
    requires
        n >= 0,
    ensures
        forall|c: int|
            0 <= c < plan_chans(ds, n).len() ==> 0 <= (#[trigger] plan_chans(ds, n)[c]).0 < n,
        forall|c: int|
            0 <= c < plan_diags(ds, n).len() ==> 0 <= (#[trigger] plan_diags(ds, n)[c]).0 < n,
    decreases n,
{
    if n > 0 {
        lemma_plan_entries_range(ds, n - 1);
        let pre_c = plan_chans(ds, n - 1);
        let tail_c = tag_channels(planned_channels(ds, n - 1), n - 1);
        assert forall|c: int|
            0 <= c < plan_chans(ds, n).len() implies 0 <= (#[trigger] plan_chans(ds, n)[c]).0
            < n by {
            if c < pre_c.len() {
                assert(plan_chans(ds, n)[c] == pre_c[c]);
            } else {
                assert(plan_chans(ds, n)[c] == tail_c[c - pre_c.len()]);
            }
        }
        let pre_d = plan_diags(ds, n - 1);
        assert forall|c: int|
            0 <= c < plan_diags(ds, n).len() implies 0 <= (#[trigger] plan_diags(ds, n)[c]).0
            < n by {
            if c < pre_d.len() {
                assert(plan_diags(ds, n)[c] == pre_d[c]);
            }
        }
    }
}

/// A dataset that is not auxiliary and has no resolvable companion
/// timestamp dataset contributes no channel to the catalog, and exactly
/// one diagnostic, which names it and reports the missing timestamps.
pub proof fn lemma_missing_timestamps_diagnostic(ds: Seq<Dataset>, i: int)
    requires
        0 <= i < ds.len(),
        !spec_is_aux(ds[i]),
        companion_of(ds, i) is None,
    ensures
        forall|c: int|
            0 <= c < plan_chans(ds, ds.len() as int).len() ==> (#[trigger] plan_chans(
                ds,
                ds.len() as int,
            )[c]).0 != i,
        plan_diags(ds, ds.len() as int).filter(|m: (int, SkipReason)| m.0 == i) == seq![
            (i, SkipReason::MissingTimestamps),
        ],
{
    assert(skip_reason_of(ds, i) == Some(SkipReason::MissingTimestamps));
    assert(planned_channels(ds, i).len() == 0);
    lemma_dropped_dataset(ds, i, ds.len() as int, SkipReason::MissingTimestamps);
}

/// A dropped dataset appears in no channel entry of the plan over the
/// first `n` datasets, and in exactly one diagnostic entry, carrying its
/// reason.
proof fn lemma_dropped_dataset(ds: Seq<Dataset>, i: int, n: int, r0: SkipReason)
    requires
        0 <= i < n,
        skip_reason_of(ds, i) == Some(r0),
        planned_channels(ds, i).len() == 0,
    ensures
        forall|c: int|
            0 <= c < plan_chans(ds, n).len() ==> (#[trigger] plan_chans(ds, n)[c]).0 != i,
        plan_diags(ds, n).filter(|m: (int, SkipReason)| m.0 == i) == seq![(i, r0)],
    decreases n,
{
    let pred = |m: (int, SkipReason)| m.0 == i;
    if n == i + 1 {
        lemma_plan_entries_range(ds, i);
        assert(plan_chans(ds, n) =~= plan_chans(ds, i));
        lemma_filter_none(plan_diags(ds, i), pred);
        assert(plan_diags(ds, n) =~= plan_diags(ds, i).push((i, r0)));
        plan_diags(ds, i).lemma_filter_push((i, r0), pred);
        assert(plan_diags(ds, n).filter(pred) =~= seq![(i, r0)]);
    } else {
        lemma_dropped_dataset(ds, i, n - 1, r0);
        assert forall|c: int|
            0 <= c < plan_chans(ds, n).len() implies (#[trigger] plan_chans(ds, n)[c]).0 != i by {
            if c < plan_chans(ds, n - 1).len() {
                assert(plan_chans(ds, n)[c] == plan_chans(ds, n - 1)[c]);
            } else {
                assert(plan_chans(ds, n)[c].0 == n - 1);
            }
        }
        match skip_reason_of(ds, n - 1) {
            Some(r1) => {
                assert(plan_diags(ds, n) =~= plan_diags(ds, n - 1).push((n - 1, r1)));
                plan_diags(ds, n - 1).lemma_filter_push((n - 1, r1), pred);
            },
            None => {
                assert(plan_diags(ds, n) =~= plan_diags(ds, n - 1));
            },
        }
    }
}

/// A filter whose predicate holds of no entry yields the empty sequence.
proof fn lemma_filter_none<A>(s: Seq<A>, pred: spec_fn(A) -> bool)
    requires
        forall|c: int| 0 <= c < s.len() ==> !pred(#[trigger] s[c]),
    ensures
        s.filter(pred) == Seq::<A>::empty(),
    decreases s.len(),
{
    if s.len() > 0 {
        assert(s.drop_last().push(s.last()) =~= s);
        assert(forall|c: int|
            0 <= c < s.drop_last().len() ==> !pred(#[trigger] s.drop_last()[c]));
        lemma_filter_none(s.drop_last(), pred);
        s.drop_last().lemma_filter_push(s.last(), pred);
    }
}

} // verus!
