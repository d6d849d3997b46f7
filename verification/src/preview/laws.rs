//! What every preview keeps to.

use vstd::prelude::*;

use crate::outside;
use crate::preview;
use crate::preview::class;
use crate::preview::class::{Class, Found};
use crate::preview::{FileMeta, Preview, PreviewLimits};
use crate::text::lines;

verus! {

/// At most so many bytes of a text are shown as the limit says.
pub proof fn law_shown_text_is_bounded(bytes: Seq<u8>, max: nat, content: Seq<char>, truncated: bool, count: nat)
    requires
        preview::shows_text(bytes, max, content, truncated, count),
    ensures
        vstd::utf8::encode_utf8(content).len() <= max,
        !truncated ==> vstd::utf8::encode_utf8(content) == bytes,
{
    let kept = preview::first_bytes(bytes, max);
    let n = choose|n: int| #[trigger]
        outside::is_valid_up_to(kept, n) && content == vstd::utf8::decode_utf8(kept.subrange(0, n)) && truncated == (
        bytes.len() > max || n < kept.len()) && count == lines::lines_of(content).len();
    vstd::utf8::decode_utf8_encode_utf8(kept.subrange(0, n));
    if !truncated {
        assert(kept.subrange(0, n) =~= bytes);
    }
}

/// Where nothing could be found out, the card is shown.
pub proof fn law_failures_show_the_card(
    r: Preview,
    class: Class,
    p: Seq<u8>,
    meta: FileMeta,
    limits: PreviewLimits,
)
    requires
        class::is_preview(r, class, p, meta, limits, Found::Nothing),
        class != Class::Audio,
    ensures
        r == Preview::Meta(meta),
{
}

/// An image that is larger than the limit is shown as a card, whatever is found
/// out of it.
pub proof fn law_large_images_show_the_card(
    r: Preview,
    class: Class,
    p: Seq<u8>,
    meta: FileMeta,
    limits: PreviewLimits,
    found: Found,
)
    requires
        class::is_preview(r, class, p, meta, limits, found),
        class == Class::Image || class == Class::Svg,
        meta.size > limits.max_image_bytes,
    ensures
        r == Preview::Meta(meta),
{
}

} // verus!
