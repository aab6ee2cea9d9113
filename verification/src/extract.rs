//! Cutting single images out of a container by its index.

use vstd::prelude::*;
use vstd::string::StringExecFns;
use crate::model::{Bif, BifError, Image, ImageView};

verus! {

/// One image cut out of a container: its payload and the name of the file
/// it is meant for.
#[derive(Debug)]
pub struct ExtractedImage {
    pub file_name: String,
    pub data: Vec<u8>,
}

/// Mathematical value of an [`ExtractedImage`].
pub struct ExtractedView {
    pub file_name: Seq<char>,
    pub data: Seq<u8>,
}

impl View for ExtractedImage {
    type V = ExtractedView;

    open spec fn view(&self) -> ExtractedView {
        ExtractedView { file_name: self.file_name@, data: self.data@ }
    }
}

/// What is appended to an image's name to name its file.
pub open spec fn file_suffix() -> Seq<char> {
    seq!['.', 'j', 'p', 'g']
}

/// The bytes that `image` asks for are all in `data`. An empty image asks
/// for none, wherever it points.
pub open spec fn payload_available(data: Seq<u8>, image: ImageView) -> bool {
    image.size == 0 || image.offset + image.size <= data.len()
}

/// The payload of `image` in `data`.
pub open spec fn payload_of(data: Seq<u8>, image: ImageView) -> Seq<u8> {
    if image.size == 0 {
        Seq::empty()
    } else {
        data.subrange(image.offset as int, image.offset + image.size)
    }
}

/// What extracting `image` from `data` gives, where its payload is
/// available.
pub open spec fn extraction_of(data: Seq<u8>, image: ImageView) -> ExtractedView {
    ExtractedView { file_name: image.name + file_suffix(), data: payload_of(data, image) }
}

/// Cuts the payload of `image` out of the container held in `data` and
/// names the file it belongs in. Fails with `IoError`, and only so, when
/// the container ends before the payload does.
pub fn extract_image(data: &[u8], image: &Image) -> (result: Result<ExtractedImage, BifError>)
    ensures
        match result {
            Ok(extracted) => payload_available(data@, image@) && extracted@ == extraction_of(
                data@,
                image@,
            ),
            Err(e) => e == BifError::IoError && !payload_available(data@, image@),
        },
{
    let size = image.size;
    let mut payload: Vec<u8> = Vec::new();
    if size > 0 {
        if size > data.len() || image.offset as usize > data.len() - size {
            return Err(BifError::IoError);
        }
        let start = image.offset as usize;
        let mut i: usize = 0;
        while i < size
            invariant
                i <= size,
                start + size <= data@.len() <= usize::MAX,
                payload@ == data@.subrange(start as int, start + i),
            decreases size - i,
        {
            payload.push(data[start + i]);
            assert(payload@ =~= data@.subrange(start as int, start + i + 1));
            i += 1;
        }
    }
    assert(payload@ =~= payload_of(data@, image@));
    let mut file_name = image.name.clone();
    file_name.append(".jpg");
    proof {
        reveal_strlit(".jpg");
        assert(file_name@ =~= image.name@ + file_suffix());
    }
    Ok(ExtractedImage { file_name, data: payload })
}

/// Cuts every image that `bif` lists out of the container held in `data`,
/// in the order of the index. Fails with `IoError`, and only so, when the
/// container ends before one of the payloads does; nothing is handed out
/// then.
pub fn extract_images(bif: &Bif, data: &[u8]) -> (result: Result<Vec<ExtractedImage>, BifError>)
    ensures
        match result {
            Ok(extracted) => {
                &&& extracted@.len() == bif@.images.len()
                &&& forall|i: int|
                    #![trigger extracted@[i]]
                    #![trigger bif@.images[i]]
                    0 <= i < extracted@.len() ==> payload_available(data@, bif@.images[i])
                        && extracted@[i]@ == extraction_of(data@, bif@.images[i])
            },
            Err(e) => e == BifError::IoError && exists|i: int|
                0 <= i < bif@.images.len() && !payload_available(data@, #[trigger] bif@.images[i]),
        },
{
    let ghost listed = bif@.images;
    let mut extracted: Vec<ExtractedImage> = Vec::new();
    let mut i: usize = 0;
    while i < bif.images.len()
        invariant
            i <= bif.images@.len(),
            listed == bif@.images,
            listed.len() == bif.images@.len(),
            extracted@.len() == i,
            forall|j: int|
                #![trigger extracted@[j]]
                #![trigger listed[j]]
                0 <= j < i ==> payload_available(data@, listed[j]) && extracted@[j]@
                    == extraction_of(data@, listed[j]),
        decreases bif.images@.len() - i,
    {
        assert(listed[i as int] == bif.images@[i as int]@);
        match extract_image(data, &bif.images[i]) {
            Ok(one) => {
                let ghost before = extracted@;
                extracted.push(one);
                assert forall|j: int| 0 <= j < i implies extracted@[j] == before[j] by {}
            },
            Err(e) => {
                return Err(e);
            },
        }
        i += 1;
    }
    Ok(extracted)
}

} // verus!
