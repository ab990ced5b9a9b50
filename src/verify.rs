//! Comparing decoded images with the originals.
use vstd::prelude::*;

verus! {

/// How an output image compares with its input.
#[derive(Clone, Copy, Debug, PartialEq, Eq, Structural)]
pub enum VerificationResult {
    /// Every pixel is equal.
    ExactMatch,
    /// The pixels differ only where both are fully transparent.
    InvisibleMatch,
    /// Some pixel differs where one of the two is visible.
    Failure,
    /// The output image is missing or cannot be read.
    NotFound,
}

/// Pixel `k` of the raw RGBA bytes `a` and `b` is equal.
pub open spec fn pixel_same(a: Seq<u8>, b: Seq<u8>, k: int) -> bool {
    &&& a[4 * k] == b[4 * k]
    &&& a[4 * k + 1] == b[4 * k + 1]
    &&& a[4 * k + 2] == b[4 * k + 2]
    &&& a[4 * k + 3] == b[4 * k + 3]
}

/// Pixel `k` is fully transparent in both `a` and `b`.
pub open spec fn pixel_invisible(a: Seq<u8>, b: Seq<u8>, k: int) -> bool {
    a[4 * k + 3] == 0 && b[4 * k + 3] == 0
}

/// How the raw RGBA bytes `output` compare with `input`, pixel by pixel.
pub open spec fn comparison(input: Seq<u8>, output: Seq<u8>) -> VerificationResult {
    let n = input.len() / 4;
    if input.len() != output.len() {
        VerificationResult::Failure
    } else if forall|k: int| 0 <= k < n ==> pixel_same(input, output, k) {
        VerificationResult::ExactMatch
    } else if forall|k: int|
        0 <= k < n ==> pixel_same(input, output, k) || pixel_invisible(input, output, k) {
        VerificationResult::InvisibleMatch
    } else {
        VerificationResult::Failure
    }
}

/// Compares the raw RGBA bytes of an output image with those of its input.
pub fn compare_images(input: &[u8], output: &[u8]) -> (r: VerificationResult)
    ensures
        r == comparison(input@, output@),
{
    if input.len() != output.len() {
        return VerificationResult::Failure;
    }
    let n = input.len() / 4;
    proof {
        vstd::arithmetic::div_mod::lemma_fundamental_div_mod(input@.len() as int, 4);
    }
    let mut invisible = false;
    let mut k: usize = 0;
    while k < n
        invariant
            n == input@.len() / 4,
            input@.len() == output@.len(),
            k <= n,
            forall|j: int|
                0 <= j < k ==> pixel_same(input@, output@, j) || pixel_invisible(input@, output@, j),
            4 * n <= input@.len() <= usize::MAX,
            invisible ==> exists|j: int| 0 <= j < k && !pixel_same(input@, output@, j),
            !invisible ==> forall|j: int| 0 <= j < k ==> pixel_same(input@, output@, j),
        decreases n - k,
    {
        let i = 4 * k;
        let same = input[i] == output[i] && input[i + 1] == output[i + 1] && input[i + 2]
            == output[i + 2] && input[i + 3] == output[i + 3];
        if !same {
            if input[i + 3] == 0 && output[i + 3] == 0 {
                invisible = true;
                assert(!pixel_same(input@, output@, k as int));
            } else {
                assert(!(pixel_same(input@, output@, k as int) || pixel_invisible(input@, output@, k as int)));
                return VerificationResult::Failure;
            }
        }
        k = k + 1;
    }
    if invisible {
        VerificationResult::InvisibleMatch
    } else {
        VerificationResult::ExactMatch
    }
}

/// The result over a folder so far, `so_far`, once one more image compared
/// as `next`: the first failure or missing image stands; otherwise an
/// invisible difference anywhere makes the whole an invisible match.
pub open spec fn merged(so_far: VerificationResult, next: VerificationResult) -> VerificationResult {
    match so_far {
        VerificationResult::Failure | VerificationResult::NotFound => so_far,
        _ => match next {
            VerificationResult::ExactMatch => so_far,
            _ => next,
        },
    }
}

/// Folds the result of one more image into the result so far.
pub fn merge_results(so_far: VerificationResult, next: VerificationResult) -> (r: VerificationResult)
    ensures
        r == merged(so_far, next),
{
    match so_far {
        VerificationResult::Failure | VerificationResult::NotFound => so_far,
        _ => match next {
            VerificationResult::ExactMatch => so_far,
            _ => next,
        },
    }
}

/// Whether the result already decides the folder: a failure or a missing
/// image.
pub fn is_final(result: VerificationResult) -> (r: bool)
    ensures
        r == (result == VerificationResult::Failure || result == VerificationResult::NotFound),
{
    match result {
        VerificationResult::Failure | VerificationResult::NotFound => true,
        _ => false,
    }
}

} // verus!
