//! Batches of images that share one profile: a batch encoder that keeps every image to the first
//! one's size, colour model, components, quality and format, and a batch decoder that keeps every
//! decoded image to the first one's size, colour model and components.
use vstd::prelude::*;
use crate::decode::{InspectOutcome, decode_jp2, inspect_outcome, jp2_decodable, jp2_decodes, refusal_agrees};
use crate::encoder::{encode, encode_owed, encodes_to};
use crate::plan::plan_issue;
use crate::error::{Jp2LamError, Result, invalid_input};
use crate::model::{ColorSpace, Component, EncodeOptions, Image, OutputFormat};

verus! {

/// What the batch profile keeps of one component.
#[derive(Debug, Clone, Copy, PartialEq, Eq, Structural)]
pub struct BatchComponentProfile {
    pub width: u32,
    pub height: u32,
    pub precision: u32,
    pub signed: bool,
    pub dx: u32,
    pub dy: u32,
}

impl BatchComponentProfile {
    /// The profile of a component.
    pub open spec fn of(c: Component) -> BatchComponentProfile {
        BatchComponentProfile {
            width: c.width,
            height: c.height,
            precision: c.precision,
            signed: c.signed,
            dx: c.dx,
            dy: c.dy,
        }
    }

    /// The profile of a component.
    pub fn from_component(component: &Component) -> (p: Self)
        ensures
            p == Self::of(*component),
    {
        BatchComponentProfile {
            width: component.width,
            height: component.height,
            precision: component.precision,
            signed: component.signed,
            dx: component.dx,
            dy: component.dy,
        }
    }
}

/// The profile that every image of a batch shares.
#[derive(Debug, Clone)]
pub struct BatchProfile {
    pub width: u32,
    pub height: u32,
    pub colorspace: ColorSpace,
    pub component_count: usize,
    pub components: Vec<BatchComponentProfile>,
    pub quality: u8,
    pub format: OutputFormat,
}

/// A batch profile as plain values.
pub struct ProfileView {
    pub width: u32,
    pub height: u32,
    pub colorspace: ColorSpace,
    pub component_count: usize,
    pub components: Seq<BatchComponentProfile>,
    pub quality: u8,
    pub format: OutputFormat,
}

impl BatchProfile {
    pub open spec fn view(&self) -> ProfileView {
        ProfileView {
            width: self.width,
            height: self.height,
            colorspace: self.colorspace,
            component_count: self.component_count,
            components: self.components@,
            quality: self.quality,
            format: self.format,
        }
    }
}

/// The profile of an image encoded with these options.
pub open spec fn profile_of(image: Image, quality: u8, format: OutputFormat) -> ProfileView {
    ProfileView {
        width: image.width,
        height: image.height,
        colorspace: image.colorspace,
        component_count: image.components@.len() as usize,
        components: Seq::new(image.components@.len(), |k: int| BatchComponentProfile::of(image.components@[k])),
        quality,
        format,
    }
}

/// Two profiles describe the same images: size, colour model and components.
pub open spec fn same_image(a: ProfileView, b: ProfileView) -> bool {
    &&& a.width == b.width
    &&& a.height == b.height
    &&& a.colorspace == b.colorspace
    &&& a.component_count == b.component_count
    &&& a.components == b.components
}

/// Two profiles are equal in every field.
pub open spec fn same_profile(a: ProfileView, b: ProfileView) -> bool {
    &&& same_image(a, b)
    &&& a.quality == b.quality
    &&& a.format == b.format
}

impl BatchProfile {
    /// The profile of `image` encoded with `options`.
    pub fn from_image(image: &Image, options: &EncodeOptions) -> (p: Self)
        ensures
            p.view() == profile_of(*image, options.quality, options.format),
    {
        let mut components: Vec<BatchComponentProfile> = Vec::new();
        let mut k: usize = 0;
        while k < image.components.len()
            invariant
                k <= image.components@.len(),
                components@.len() == k,
                forall|j: int| 0 <= j < k ==> #[trigger] components@[j] == BatchComponentProfile::of(image.components@[j]),
            decreases image.components@.len() - k,
        {
            components.push(BatchComponentProfile::from_component(&image.components[k]));
            k = k + 1;
        }
        let p = BatchProfile {
            width: image.width,
            height: image.height,
            colorspace: image.colorspace,
            component_count: image.components.len(),
            components,
            quality: options.quality,
            format: options.format,
        };
        assert(p.view().components =~= profile_of(*image, options.quality, options.format).components);
        p
    }

    /// Whether the two profiles describe the same images.
    pub fn same_image_profile(&self, other: &Self) -> (b: bool)
        ensures
            b == same_image(self.view(), other.view()),
    {
        if self.width != other.width || self.height != other.height || self.colorspace != other.colorspace
            || self.component_count != other.component_count || self.components.len() != other.components.len() {
            return false;
        }
        let mut k: usize = 0;
        while k < self.components.len()
            invariant
                self.components@.len() == other.components@.len(),
                k <= self.components@.len(),
                forall|j: int| 0 <= j < k ==> self.components@[j] == other.components@[j],
            decreases self.components@.len() - k,
        {
            if self.components[k] != other.components[k] {
                return false;
            }
            k = k + 1;
        }
        assert(self.components@ =~= other.components@);
        true
    }

    /// Whether the two profiles are equal in every field.
    pub fn same_as(&self, other: &Self) -> (b: bool)
        ensures
            b == same_profile(self.view(), other.view()),
    {
        self.same_image_profile(other) && self.quality == other.quality && self.format == other.format
    }
}

/// The error for an image whose profile differs from the batch's.
fn profile_mismatch() -> (e: Jp2LamError)
    ensures
        e is InvalidInput,
        e.spec_message() == "batch item profile mismatch"@,
{
    invalid_input("batch item profile mismatch")
}

/// `c + n`, or the largest `usize` when that does not fit.
pub open spec fn sat_count(c: usize, n: nat) -> usize {
    if c + n > usize::MAX { usize::MAX } else { (c + n) as usize }
}

/// The profile a batch holds its images to: the one it has, or else that of the first image.
pub open spec fn encode_base(old: Option<ProfileView>, images: Seq<Image>, options: EncodeOptions) -> ProfileView {
    match old {
        Some(p) => p,
        None => profile_of(images[0], options.quality, options.format),
    }
}

/// The profile of a decoded image (quality and format do not count for decoding).
pub open spec fn decoded_profile(img: Image) -> ProfileView {
    profile_of(img, 0, OutputFormat::Jp2)
}

/// The profile a decoding batch holds its images to: the one it has, or else that of the first
/// decoded image.
pub open spec fn decode_base(old: Option<ProfileView>, images: Seq<Image>) -> ProfileView {
    match old {
        Some(p) => p,
        None => decoded_profile(images[0]),
    }
}

/// Every stream decodes, and whatever images they decode to describe the same images, as each
/// describes the same images as the batch's profile where it has one.
pub open spec fn streams_agree(old: Option<ProfileView>, streams: Seq<&[u8]>) -> bool {
    &&& forall|i: int| 0 <= i < streams.len() ==> #[trigger] jp2_decodable(streams[i]@)
    &&& forall|i: int, j: int, a: Image, b: Image| 0 <= i < streams.len() && 0 <= j < streams.len()
        && #[trigger] jp2_decodes(streams[i]@, a) && #[trigger] jp2_decodes(streams[j]@, b)
        ==> same_image(decoded_profile(a), decoded_profile(b))
    &&& old matches Some(e) ==> forall|i: int, a: Image| 0 <= i < streams.len() && #[trigger] jp2_decodes(streams[i]@, a)
        ==> same_image(e, decoded_profile(a))
}

/// Encoding `image` with `options` can give some bytes.
pub open spec fn encodable(image: Image, options: EncodeOptions) -> bool {
    exists|b: Seq<u8>| #[trigger] encodes_to(image, options, b)
}

/// A batch whose profile is `p` admits `image`: it has no profile yet, or the image's profile
/// equals it.
pub open spec fn profile_admits(p: Option<ProfileView>, image: Image, options: EncodeOptions) -> bool {
    p matches Some(expected) ==> same_profile(expected, profile_of(image, options.quality, options.format))
}

/// Encodes images that share one profile and one set of options.
pub struct BatchEncoder {
    options: EncodeOptions,
    profile: Option<BatchProfile>,
    encoded_count: usize,
}

impl BatchEncoder {
    /// The options every image is encoded with.
    pub closed spec fn spec_options(&self) -> EncodeOptions {
        self.options
    }

    /// The batch's profile, once the first image has set it.
    pub closed spec fn spec_profile(&self) -> Option<ProfileView> {
        match self.profile {
            Some(p) => Some(p.view()),
            None => None,
        }
    }

    /// How many images have been encoded.
    pub closed spec fn spec_count(&self) -> usize {
        self.encoded_count
    }

    /// A batch encoder with these options and no profile yet.
    pub fn new(options: EncodeOptions) -> (b: Self)
        ensures
            b.spec_options() == options,
            b.spec_profile() is None,
            b.spec_count() == 0,
    {
        BatchEncoder { options, profile: None, encoded_count: 0 }
    }

    /// The batch's profile, once the first image has set it.
    pub fn profile(&self) -> (p: Option<&BatchProfile>)
        ensures
            p is Some <==> self.spec_profile() is Some,
            p matches Some(q) ==> Some(q.view()) == self.spec_profile(),
    {
        match &self.profile {
            Some(p) => Some(p),
            None => None,
        }
    }

    /// How many images have been encoded.
    pub fn encoded_count(&self) -> (n: usize)
        ensures
            n == self.spec_count(),
    {
        self.encoded_count
    }

    /// Takes the image's profile as the batch's if it has none yet; otherwise checks that the
    /// image's profile equals it.
    pub fn validate_or_set_profile(&mut self, image: &Image) -> (r: Result<()>)
        ensures
            final(self).spec_options() == old(self).spec_options(),
            final(self).spec_count() == old(self).spec_count(),
            match old(self).spec_profile() {
                None => r is Ok && final(self).spec_profile()
                    == Some(profile_of(*image, old(self).spec_options().quality, old(self).spec_options().format)),
                Some(expected) => final(self).spec_profile() == old(self).spec_profile()
                    && (r is Ok <==> same_profile(expected, profile_of(*image, old(self).spec_options().quality,
                        old(self).spec_options().format)))
                    && (r matches Err(e) ==> e is InvalidInput && e.spec_message() == "batch item profile mismatch"@),
            },
    {
        let profile = BatchProfile::from_image(image, &self.options);
        match &self.profile {
            Some(expected) => {
                if expected.same_as(&profile) { Ok(()) } else { Err(profile_mismatch()) }
            },
            None => {
                self.profile = Some(profile);
                Ok(())
            },
        }
    }

    /// Encodes one image of the batch, after checking its profile against the batch's.
    pub fn encode_one(&mut self, image: &Image) -> (r: Result<Vec<u8>>)
        ensures
            final(self).spec_options() == old(self).spec_options(),
            r is Ok ==> final(self).spec_count() == (if old(self).spec_count() < usize::MAX { old(self).spec_count() + 1 } else { usize::MAX as int }),
            r is Ok ==> match old(self).spec_profile() {
                None => final(self).spec_profile()
                    == Some(profile_of(*image, old(self).spec_options().quality, old(self).spec_options().format)),
                Some(expected) => final(self).spec_profile() == old(self).spec_profile()
                    && same_profile(expected, profile_of(*image, old(self).spec_options().quality, old(self).spec_options().format)),
            },
            old(self).spec_profile() matches Some(expected) && !same_profile(expected,
                profile_of(*image, old(self).spec_options().quality, old(self).spec_options().format))
                ==> (r matches Err(e) && e is InvalidInput && e.spec_message() == "batch item profile mismatch"@),
            r matches Ok(v) ==> encodes_to(*image, old(self).spec_options(), v@),
            final(self).spec_profile() == match old(self).spec_profile() {
                None => Some(profile_of(*image, old(self).spec_options().quality, old(self).spec_options().format)),
                Some(p) => Some(p),
            },
            r is Err ==> final(self).spec_count() == old(self).spec_count(),
            profile_admits(old(self).spec_profile(), *image, old(self).spec_options()) && plan_issue(*image, old(self).spec_options())
                ==> (r matches Err(e) && e is InvalidInput),
            profile_admits(old(self).spec_profile(), *image, old(self).spec_options()) && !plan_issue(*image, old(self).spec_options())
                && old(self).spec_options().quality != 100 ==> (r matches Err(e) && e is UnsupportedFeature),
            r matches Err(e) ==> e is InvalidInput || e is UnsupportedFeature || e is EncodeFailed,
            encode_owed(*image, old(self).spec_options()) && (old(self).spec_profile() matches Some(expected)
                ==> same_profile(expected, profile_of(*image, old(self).spec_options().quality, old(self).spec_options().format)))
                ==> r is Ok,
    {
        self.validate_or_set_profile(image)?;
        let encoded = encode(image, &self.options)?;
        self.encoded_count = if self.encoded_count < usize::MAX { self.encoded_count + 1 } else { usize::MAX };
        Ok(encoded)
    }

    /// Encodes the images in order, stopping at the first error.
    #[verifier::rlimit(50)]
    pub fn encode_all(&mut self, images: &[Image]) -> (r: Result<Vec<Vec<u8>>>)
        ensures
            final(self).spec_options() == old(self).spec_options(),
            images@.len() == 0 ==> (r matches Ok(v) && v@.len() == 0 && final(self).spec_profile() == old(self).spec_profile()
                && final(self).spec_count() == old(self).spec_count()),
            r matches Ok(v) ==> v@.len() == images@.len()
                && (forall|i: int| 0 <= i < v@.len() ==> encodes_to(images@[i], old(self).spec_options(), #[trigger] v@[i]@))
                && final(self).spec_count() == sat_count(old(self).spec_count(), images@.len()),
            r is Ok && images@.len() > 0 ==> {
                let base = encode_base(old(self).spec_profile(), images@, old(self).spec_options());
                &&& final(self).spec_profile() == Some(base)
                &&& forall|i: int| 0 <= i < images@.len() ==> same_profile(base,
                    profile_of(#[trigger] images@[i], old(self).spec_options().quality, old(self).spec_options().format))
            },
            images@.len() > 0 && old(self).spec_options().quality != 100 ==> r is Err,
            images@.len() > 0 && (exists|i: int| 0 <= i < images@.len() && !same_profile(
                encode_base(old(self).spec_profile(), images@, old(self).spec_options()),
                profile_of(#[trigger] images@[i], old(self).spec_options().quality, old(self).spec_options().format)))
                ==> r is Err,
            (forall|i: int| 0 <= i < images@.len() ==> encode_owed(#[trigger] images@[i], old(self).spec_options())
                && same_profile(encode_base(old(self).spec_profile(), images@, old(self).spec_options()),
                    profile_of(images@[i], old(self).spec_options().quality, old(self).spec_options().format)))
                ==> r is Ok,
            r is Err ==> exists|j: nat| j < images@.len()
                && #[trigger] sat_count(old(self).spec_count(), j) == final(self).spec_count()
                && forall|k: int| 0 <= k < j ==> #[trigger] encodable(images@[k], old(self).spec_options()),
            r matches Err(e) ==> e is InvalidInput || e is UnsupportedFeature || e is EncodeFailed,
    {
        let ghost opts = self.spec_options();
        let ghost p0 = self.spec_profile();
        let ghost c0 = self.spec_count();
        let ghost owed = forall|i: int| 0 <= i < images@.len() ==> encode_owed(#[trigger] images@[i], opts)
            && same_profile(encode_base(p0, images@, opts), profile_of(images@[i], opts.quality, opts.format));
        let mut encoded: Vec<Vec<u8>> = Vec::new();
        let mut i: usize = 0;
        while i < images.len()
            invariant
                i <= images@.len(),
                encoded@.len() == i,
                self.spec_options() == opts,
                opts == old(self).spec_options(),
                p0 == old(self).spec_profile(),
                owed ==> forall|j: int| 0 <= j < images@.len() ==> encode_owed(#[trigger] images@[j], opts)
                    && same_profile(encode_base(p0, images@, opts), profile_of(images@[j], opts.quality, opts.format)),
                c0 == old(self).spec_count(),
                forall|j: int| 0 <= j < i ==> encodes_to(images@[j], opts, #[trigger] encoded@[j]@),
                self.spec_count() == sat_count(c0, i as nat),
                i == 0 ==> self.spec_profile() == p0,
                i > 0 ==> self.spec_profile() == Some(encode_base(p0, images@, opts))
                    && forall|j: int| 0 <= j < i ==> same_profile(encode_base(p0, images@, opts),
                        profile_of(#[trigger] images@[j], opts.quality, opts.format)),
            decreases images@.len() - i,
        {
            proof {
                if owed {
                    assert(encode_owed(images@[i as int], opts));
                    assert(same_profile(encode_base(p0, images@, opts), profile_of(images@[i as int], opts.quality, opts.format)));
                }
            }
            let bytes = match self.encode_one(&images[i]) {
                Ok(b) => b,
                Err(e) => {
                    proof {
                        assert forall|k: int| 0 <= k < i implies #[trigger] encodable(images@[k], opts) by {
                            assert(encodes_to(images@[k], opts, encoded@[k]@));
                        }
                        assert(sat_count(c0, i as nat) == self.spec_count());
                    }
                    return Err(e);
                },
            };
            encoded.push(bytes);
            i = i + 1;
        }
        proof {
            if images@.len() > 0 {
                assert(encodes_to(images@[0], opts, encoded@[0]@));
            }
        }
        Ok(encoded)
    }
}

/// Decodes images that share one profile.
pub struct BatchDecoder {
    profile: Option<BatchProfile>,
    decoded_count: usize,
}

impl BatchDecoder {
    /// The batch's profile, once the first image has set it.
    pub closed spec fn spec_profile(&self) -> Option<ProfileView> {
        match self.profile {
            Some(p) => Some(p.view()),
            None => None,
        }
    }

    /// How many images have been decoded.
    pub closed spec fn spec_count(&self) -> usize {
        self.decoded_count
    }

    /// A batch decoder with no profile yet.
    pub fn new() -> (b: Self)
        ensures
            b.spec_profile() is None,
            b.spec_count() == 0,
    {
        BatchDecoder { profile: None, decoded_count: 0 }
    }

    /// The batch's profile, once the first image has set it.
    pub fn profile(&self) -> (p: Option<&BatchProfile>)
        ensures
            p is Some <==> self.spec_profile() is Some,
            p matches Some(q) ==> Some(q.view()) == self.spec_profile(),
    {
        match &self.profile {
            Some(p) => Some(p),
            None => None,
        }
    }

    /// How many images have been decoded.
    pub fn decoded_count(&self) -> (n: usize)
        ensures
            n == self.spec_count(),
    {
        self.decoded_count
    }

    /// Takes the decoded image's profile as the batch's if it has none yet; otherwise checks
    /// that it describes the same images (quality and format do not count for decoding).
    pub fn validate_or_set_profile(&mut self, image: &Image) -> (r: Result<()>)
        ensures
            final(self).spec_count() == old(self).spec_count(),
            match old(self).spec_profile() {
                None => r is Ok && final(self).spec_profile() == Some(profile_of(*image, 0, OutputFormat::Jp2)),
                Some(expected) => final(self).spec_profile() == old(self).spec_profile()
                    && (r is Ok <==> same_image(expected, profile_of(*image, 0, OutputFormat::Jp2)))
                    && (r matches Err(e) ==> e is InvalidInput && e.spec_message() == "batch item profile mismatch"@),
            },
    {
        let profile = BatchProfile::from_image(image, &EncodeOptions { quality: 0, format: OutputFormat::Jp2 });
        match &self.profile {
            Some(expected) => {
                if expected.same_image_profile(&profile) { Ok(()) } else { Err(profile_mismatch()) }
            },
            None => {
                self.profile = Some(profile);
                Ok(())
            },
        }
    }

    /// Decodes one JP2 file of the batch, then checks the image's profile against the batch's.
    pub fn decode_one(&mut self, bytes: &[u8]) -> (r: Result<Image>)
        ensures
            refusal_agrees(r, inspect_outcome(bytes@)),
            r matches Ok(img) ==> jp2_decodes(bytes@, img),
            r matches Ok(img) ==> match old(self).spec_profile() {
                None => final(self).spec_profile() == Some(profile_of(img, 0, OutputFormat::Jp2)),
                Some(expected) => final(self).spec_profile() == old(self).spec_profile()
                    && same_image(expected, profile_of(img, 0, OutputFormat::Jp2)),
            },
            r is Ok ==> final(self).spec_count() == (if old(self).spec_count() < usize::MAX { old(self).spec_count() + 1 } else { usize::MAX as int }),
            r is Err ==> final(self).spec_profile() == old(self).spec_profile()
                && final(self).spec_count() == old(self).spec_count(),
            jp2_decodable(bytes@) && (old(self).spec_profile() matches Some(e) ==> forall|img: Image|
                #[trigger] jp2_decodes(bytes@, img) ==> same_image(e, decoded_profile(img))) ==> r is Ok,
    {
        let image = decode_jp2(bytes)?;
        self.validate_or_set_profile(&image)?;
        self.decoded_count = if self.decoded_count < usize::MAX { self.decoded_count + 1 } else { usize::MAX };
        Ok(image)
    }

    /// Decodes the files in order, stopping at the first error.
    pub fn decode_all(&mut self, streams: &[&[u8]]) -> (r: Result<Vec<Image>>)
        ensures
            streams@.len() == 0 ==> (r matches Ok(v) && v@.len() == 0 && final(self).spec_profile() == old(self).spec_profile()
                && final(self).spec_count() == old(self).spec_count()),
            r matches Ok(v) ==> v@.len() == streams@.len()
                && (forall|i: int| 0 <= i < v@.len() ==> jp2_decodes(streams@[i]@, #[trigger] v@[i]))
                && final(self).spec_count() == sat_count(old(self).spec_count(), streams@.len()),
            r matches Ok(v) ==> streams@.len() > 0 ==> {
                let base = decode_base(old(self).spec_profile(), v@);
                &&& final(self).spec_profile() == Some(base)
                &&& forall|i: int| 0 <= i < v@.len() ==> same_image(base, decoded_profile(#[trigger] v@[i]))
            },
            streams_agree(old(self).spec_profile(), streams@) ==> r is Ok,
    {
        let ghost p0 = self.spec_profile();
        let ghost c0 = self.spec_count();
        let mut decoded: Vec<Image> = Vec::new();
        let mut i: usize = 0;
        while i < streams.len()
            invariant
                i <= streams@.len(),
                decoded@.len() == i,
                p0 == old(self).spec_profile(),
                c0 == old(self).spec_count(),
                forall|j: int| 0 <= j < i ==> jp2_decodes(streams@[j]@, #[trigger] decoded@[j]),
                self.spec_count() == sat_count(c0, i as nat),
                i == 0 ==> self.spec_profile() == p0,
                i > 0 ==> self.spec_profile() == Some(decode_base(p0, decoded@))
                    && forall|j: int| 0 <= j < i ==> same_image(decode_base(p0, decoded@),
                        decoded_profile(#[trigger] decoded@[j])),
            decreases streams@.len() - i,
        {
            proof {
                if streams_agree(p0, streams@) {
                    assert(jp2_decodable(streams@[i as int]@));
                    match self.spec_profile() {
                        Some(e) => {
                            assert forall|img: Image| #[trigger] jp2_decodes(streams@[i as int]@, img)
                                implies same_image(e, decoded_profile(img)) by {
                                if i > 0 && p0 is None {
                                    assert(jp2_decodes(streams@[0]@, decoded@[0]));
                                }
                            }
                        },
                        None => {},
                    }
                }
            }
            let image = self.decode_one(streams[i])?;
            let ghost before = decoded@;
            decoded.push(image);
            proof {
                if i > 0 {
                    assert(decoded@[0] == before[0]);
                }
            }
            i = i + 1;
        }
        Ok(decoded)
    }
}

impl Default for BatchDecoder {
    fn default() -> (b: Self)
        ensures
            b.spec_profile() is None,
            b.spec_count() == 0,
    {
        BatchDecoder::new()
    }
}

/// Encodes the images as one batch with these options.
pub fn encode_batch(images: &[Image], options: &EncodeOptions) -> (r: Result<Vec<Vec<u8>>>)
    ensures
        images@.len() == 0 ==> (r matches Ok(v) && v@.len() == 0),
        r matches Ok(v) ==> v@.len() == images@.len()
            && (forall|i: int| 0 <= i < v@.len() ==> encodes_to(images@[i], *options, #[trigger] v@[i]@))
            && (forall|i: int| 0 <= i < images@.len() ==> same_profile(
                profile_of(images@[0], options.quality, options.format),
                profile_of(#[trigger] images@[i], options.quality, options.format))),
        images@.len() > 0 && options.quality != 100 ==> r is Err,
        (exists|i: int| 0 <= i < images@.len() && !same_profile(profile_of(images@[0], options.quality, options.format),
            profile_of(#[trigger] images@[i], options.quality, options.format))) ==> r is Err,
        (forall|i: int| 0 <= i < images@.len() ==> encode_owed(#[trigger] images@[i], *options)
            && same_profile(profile_of(images@[0], options.quality, options.format),
                profile_of(images@[i], options.quality, options.format))) ==> r is Ok,
        r matches Err(e) ==> e is InvalidInput || e is UnsupportedFeature || e is EncodeFailed,
{
    let mut encoder = BatchEncoder::new(EncodeOptions { quality: options.quality, format: options.format });
    encoder.encode_all(images)
}

/// Decodes the files as one batch.
pub fn decode_batch(streams: &[&[u8]]) -> (r: Result<Vec<Image>>)
    ensures
        streams@.len() == 0 ==> (r matches Ok(v) && v@.len() == 0),
        r matches Ok(v) ==> v@.len() == streams@.len()
            && (forall|i: int| 0 <= i < v@.len() ==> jp2_decodes(streams@[i]@, #[trigger] v@[i]))
            && (forall|i: int| 0 <= i < v@.len() ==> same_image(decoded_profile(v@[0]), decoded_profile(#[trigger] v@[i]))),
        streams_agree(None, streams@) ==> r is Ok,
{
    let mut decoder = BatchDecoder::new();
    decoder.decode_all(streams)
}

} // verus!
