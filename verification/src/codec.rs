//! The frame codec: a pair of functions that turn an image into a packed
//! difference from the image shown before it, and back.
use vstd::prelude::*;

verus! {

/// The two halves of a frame codec.
///
/// `comp(old, new)` packs what has to change to get from `old` to `new`;
/// `decomp(canvas, packed)` applies a packed change to `canvas` and gives the
/// changed image back. Nothing is presumed of either function: contracts speak
/// of what was handed to them and of what they returned.
pub struct FrameCodec<C, D> {
    pub comp: C,
    pub decomp: D,
}

impl<C, D> FrameCodec<C, D> where
    C: Fn(&[u8], &[u8]) -> Vec<u8>,
    D: Fn(Vec<u8>, &[u8]) -> Vec<u8>,
 {
    /// `comp` accepts the pair of images.
    pub open spec fn can_pack(&self, old: Seq<u8>, new: Seq<u8>) -> bool {
        forall|a: &[u8], b: &[u8]|
            a@ == old && b@ == new ==> #[trigger] call_requires(self.comp, (a, b))
    }

    /// `packed` is something that `comp` returns for the pair of images.
    pub open spec fn packs(&self, old: Seq<u8>, new: Seq<u8>, packed: Seq<u8>) -> bool {
        exists|a: &[u8], b: &[u8], r: Vec<u8>|
            a@ == old && b@ == new && r@ == packed && #[trigger] call_ensures(
                self.comp,
                (a, b),
                r,
            )
    }

    /// `decomp` accepts the canvas and the packed change.
    pub open spec fn can_unpack(&self, canvas: Seq<u8>, packed: Seq<u8>) -> bool {
        forall|c: Vec<u8>, p: &[u8]|
            c@ == canvas && p@ == packed ==> #[trigger] call_requires(self.decomp, (c, p))
    }

    /// `shown` is something that `decomp` makes of the canvas.
    pub open spec fn unpacks(&self, canvas: Seq<u8>, packed: Seq<u8>, shown: Seq<u8>) -> bool {
        exists|c: Vec<u8>, p: &[u8], r: Vec<u8>|
            c@ == canvas && p@ == packed && r@ == shown && #[trigger] call_ensures(
                self.decomp,
                (c, p),
                r,
            )
    }

    /// Packing `new` against `old`, and applying whatever came of it to `old`,
    /// is accepted by both functions.
    pub open spec fn can_show(&self, old: Seq<u8>, new: Seq<u8>) -> bool {
        &&& self.can_pack(old, new)
        &&& forall|packed: Seq<u8>| #[trigger]
            self.packs(old, new, packed) ==> self.can_unpack(old, packed)
    }

    /// Whatever was packed against an image of the same length, applying it to
    /// that image gives the packed image back.
    pub open spec fn lossless(&self) -> bool {
        forall|old: Seq<u8>, new: Seq<u8>, packed: Seq<u8>, shown: Seq<u8>|
            old.len() == new.len() && #[trigger] self.packs(old, new, packed)
                && #[trigger] self.unpacks(old, packed, shown) ==> shown == new
    }

    /// Packs the change from `old` to `new`.
    pub fn mixed_comp(&self, old: &[u8], new: &[u8]) -> (packed: Vec<u8>)
        requires
            self.can_pack(old@, new@),
        ensures
            self.packs(old@, new@, packed@),
    {
        (self.comp)(old, new)
    }

    /// Applies a packed change to `canvas`.
    pub fn mixed_decomp(&self, canvas: &mut Vec<u8>, packed: &[u8])
        requires
            self.can_unpack(old(canvas)@, packed@),
        ensures
            self.unpacks(old(canvas)@, packed@, final(canvas)@),
    {
        let mut shown: Vec<u8> = Vec::new();
        std::mem::swap(&mut shown, canvas);
        *canvas = (self.decomp)(shown, packed);
    }
}

/// Packing hands the old image and the new one to `comp`, in this order, and unpacking
/// hands the canvas and the packed change to `decomp`; what these return is what comes
/// back, and what is on the canvas.
pub proof fn the_codec_is_handed_images_in_order<C, D>(
    codec: &FrameCodec<C, D>,
    old_img: &[u8],
    new: &[u8],
    packed: Vec<u8>,
    canvas: &mut Vec<u8>,
    change: &[u8],
) where C: Fn(&[u8], &[u8]) -> Vec<u8>, D: Fn(Vec<u8>, &[u8]) -> Vec<u8>
    requires
        call_ensures(FrameCodec::<C, D>::mixed_comp, (codec, old_img, new), packed),
        call_ensures(FrameCodec::<C, D>::mixed_decomp, (codec, canvas, change), ()),
    ensures
        exists|a: &[u8], b: &[u8], r: Vec<u8>| #[trigger]
            call_ensures(codec.comp, (a, b), r) && a@ == old_img@ && b@ == new@ && r@ == packed@,
        exists|c: Vec<u8>, p: &[u8], r: Vec<u8>| #[trigger]
            call_ensures(codec.decomp, (c, p), r) && c@ == old(canvas)@ && p@ == change@ && r@
                == final(canvas)@,
{
}

/// A codec that loses nothing gives back the very image that was packed, whatever two
/// images of one length it is used on.
pub proof fn a_lossless_codec_gives_back_what_was_packed<C, D>(
    codec: FrameCodec<C, D>,
    a: &[u8],
    b: &[u8],
    packed: Vec<u8>,
    canvas: Vec<u8>,
    change: &[u8],
    shown: Vec<u8>,
) where C: Fn(&[u8], &[u8]) -> Vec<u8>, D: Fn(Vec<u8>, &[u8]) -> Vec<u8>
    requires
        codec.lossless(),
        a@.len() == b@.len(),
        call_ensures(codec.comp, (a, b), packed),
        canvas@ == a@,
        change@ == packed@,
        call_ensures(codec.decomp, (canvas, change), shown),
    ensures
        shown@ == b@,
{
    assert(codec.packs(a@, b@, packed@));
    assert(codec.unpacks(a@, packed@, shown@));
}

/// A codec whose functions undo each other on images of one length loses nothing.
pub proof fn functions_that_undo_each_other_are_lossless<C, D>(codec: FrameCodec<C, D>) where
    C: Fn(&[u8], &[u8]) -> Vec<u8>,
    D: Fn(Vec<u8>, &[u8]) -> Vec<u8>,

    requires
        forall|a: &[u8], b: &[u8], packed: Vec<u8>, canvas: Vec<u8>, change: &[u8], shown: Vec<u8>|
            a@.len() == b@.len() && #[trigger] call_ensures(codec.comp, (a, b), packed) && canvas@
                == a@ && change@ == packed@ && #[trigger] call_ensures(
                codec.decomp,
                (canvas, change),
                shown,
            ) ==> shown@ == b@,
    ensures
        codec.lossless(),
{
}

} // verus!
