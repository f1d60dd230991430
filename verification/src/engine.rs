//! Applying patch directives to a byte buffer.

use vstd::pervasive::VecAdditionalExecFns;
use vstd::prelude::*;

use crate::errors::{PatchError, PatchFailure};
use crate::pattern::{first_match, sig_tokens, PatToken, Pattern};

verus! {

/// `b` with the bytes at `[start, start + w.len())` replaced by `w` and
/// everything else unchanged; the length never changes.
pub open spec fn spliced(b: Seq<u8>, start: int, w: Seq<u8>) -> Seq<u8> {
    Seq::new(
        b.len(),
        |j: int|
            if start <= j && j < start + w.len() {
                w[j - start]
            } else {
                b[j]
            },
    )
}

/// One configured unit of work: find a signature in the buffer, then
/// overwrite bytes at a signed offset from the match with the replacement.
pub struct PatchDirective {
    /// Display name for diagnostics; callers fall back to the signature
    /// string when it is absent.
    pub name: Option<String>,
    /// The signature to search for.
    pub sig: String,
    /// The replacement bytes; their length is the width of the span that
    /// is overwritten.
    pub with: Vec<u8>,
    /// Where to write, relative to the match start; absent means 0.
    pub with_offset: Option<isize>,
}

/// The offset a directive uses: its signed offset, or 0 when absent.
pub open spec fn offset_of(d: PatchDirective) -> int {
    match d.with_offset {
        Some(o) => o as int,
        None => 0,
    }
}

/// What applying a compiled pattern does to a buffer: find the leftmost
/// match, add the signed offset, check bounds, and splice the replacement
/// in. Each error names the first step that fails.
pub open spec fn apply_spec(b: Seq<u8>, toks: Seq<PatToken>, w: Seq<u8>, off: int) -> Result<
    Seq<u8>,
    PatchError,
> {
    match first_match(b, toks) {
        None => Err(PatchError::PatternNotFound),
        Some(m) => {
            let ps = m + off;
            if ps < 0 || ps > usize::MAX as int {
                Err(PatchError::OffsetOverflow)
            } else if ps + w.len() > b.len() {
                Err(PatchError::OutOfBounds)
            } else {
                Ok(spliced(b, ps, w))
            }
        },
    }
}

/// `apply_spec` behind signature compilation: a malformed or empty
/// signature fails, a well-formed one is applied.
pub open spec fn patch_step(b: Seq<u8>, sig: Seq<char>, w: Seq<u8>, off: int) -> Result<
    Seq<u8>,
    PatchError,
> {
    match sig_tokens(sig) {
        None => Err(PatchError::InvalidPattern),
        Some(toks) => if toks.len() == 0 {
            Err(PatchError::InvalidPattern)
        } else {
            apply_spec(b, toks, w, off)
        },
    }
}

/// What one directive does to a buffer.
pub open spec fn directive_step(b: Seq<u8>, d: PatchDirective) -> Result<Seq<u8>, PatchError> {
    patch_step(b, d.sig@, d.with@, offset_of(d))
}

/// What a directive list does to a buffer: each directive is applied to
/// the buffer the previous ones produced, and the first failure stops the
/// run, reported with the failing directive's position.
pub open spec fn run_patches(b: Seq<u8>, ds: Seq<PatchDirective>) -> Result<
    Seq<u8>,
    (int, PatchError),
>
    decreases ds.len(),
{
    if ds.len() == 0 {
        Ok(b)
    } else {
        match directive_step(b, ds[0]) {
            Err(e) => Err((0, e)),
            Ok(b2) => match run_patches(b2, ds.drop_first()) {
                Ok(bf) => Ok(bf),
                Err((i, e)) => Err((i + 1, e)),
            },
        }
    }
}

/// Running a list with one directive appended runs the list, then the
/// appended directive on its result.
proof fn lemma_run_patches_snoc(b: Seq<u8>, ds: Seq<PatchDirective>, d: PatchDirective)
    ensures
        run_patches(b, ds.push(d)) == (match run_patches(b, ds) {
            Ok(mid) => match directive_step(mid, d) {
                Ok(nb) => Ok::<Seq<u8>, (int, PatchError)>(nb),
                Err(e) => Err::<Seq<u8>, (int, PatchError)>((ds.len() as int, e)),
            },
            Err(x) => Err::<Seq<u8>, (int, PatchError)>(x),
        }),
    decreases ds.len(),
{
    reveal_with_fuel(run_patches, 3);
    if ds.len() == 0 {
        assert(ds.push(d)[0] == d);
        assert(ds.push(d).drop_first() =~= Seq::<PatchDirective>::empty());
    } else {
        assert(ds.push(d)[0] == ds[0]);
        assert(ds.push(d).drop_first() =~= ds.drop_first().push(d));
        match directive_step(b, ds[0]) {
            Err(e) => {
            },
            Ok(b2) => {
                lemma_run_patches_snoc(b2, ds.drop_first(), d);
            },
        }
    }
}

/// Once a prefix of the list fails, the whole list fails the same way.
proof fn lemma_run_patches_err_extends(b: Seq<u8>, ds: Seq<PatchDirective>, i: int)
    requires
        0 <= i <= ds.len(),
        run_patches(b, ds.take(i)) is Err,
    ensures
        run_patches(b, ds) == run_patches(b, ds.take(i)),
    decreases ds.len() - i,
{
    if i == ds.len() {
        assert(ds.take(i) =~= ds);
    } else {
        lemma_run_patches_snoc(b, ds.take(i), ds[i]);
        assert(ds.take(i).push(ds[i]) =~= ds.take(i + 1));
        lemma_run_patches_err_extends(b, ds, i + 1);
    }
}

/// The conditional-idempotence law: when applying a pattern leaves a
/// buffer whose leftmost match of that pattern is the same offset as
/// before, applying it again with the same replacement and offset returns
/// that buffer unchanged. When instead the patched buffer's leftmost match
/// moves or disappears, `apply_spec` says directly what a reapplication
/// does: it splices at the new match, or fails with `PatternNotFound`.
pub proof fn lemma_apply_idempotent_when_match_unmoved(
    b: Seq<u8>,
    b2: Seq<u8>,
    toks: Seq<PatToken>,
    w: Seq<u8>,
    off: int,
)
    requires
        apply_spec(b, toks, w, off) == Ok::<Seq<u8>, PatchError>(b2),
        first_match(b2, toks) == first_match(b, toks),
    ensures
        apply_spec(b2, toks, w, off) == Ok::<Seq<u8>, PatchError>(b2),
{
    let m = first_match(b, toks)->0;
    let ps = m + off;
    assert(b2 == spliced(b, ps, w));
    assert(b2.len() == b.len());
    assert(spliced(b2, ps, w) =~= b2);
}

/// Each splice overwrites a span in place, so no run of directives ever
/// changes the buffer's length.
pub proof fn lemma_run_patches_preserves_len(b: Seq<u8>, ds: Seq<PatchDirective>)
    ensures
        match run_patches(b, ds) {
            Ok(bf) => bf.len() == b.len(),
            Err(_) => true,
        },
    decreases ds.len(),
{
    if ds.len() > 0 {
        match directive_step(b, ds[0]) {
            Ok(b2) => {
                assert(b2.len() == b.len());
                lemma_run_patches_preserves_len(b2, ds.drop_first());
            },
            Err(_) => {
            },
        }
    }
}

/// Find the leftmost match of `pattern` in `buffer` and overwrite the
/// `with.len()` bytes at the match position plus `with_offset` with
/// `with`. The buffer's length never changes, and on any error it is
/// untouched. Returns the match offset for diagnostics.
pub fn apply(buffer: &mut Vec<u8>, pattern: &Pattern, with: &[u8], with_offset: isize) -> (r:
    Result<usize, PatchError>)
    ensures
        match r {
            Ok(m) => {
                &&& first_match(old(buffer)@, pattern@) == Some(m as int)
                &&& apply_spec(old(buffer)@, pattern@, with@, with_offset as int) == Ok::<
                    Seq<u8>,
                    PatchError,
                >(final(buffer)@)
            },
            Err(e) => {
                &&& apply_spec(old(buffer)@, pattern@, with@, with_offset as int) == Err::<
                    Seq<u8>,
                    PatchError,
                >(e)
                &&& final(buffer)@ == old(buffer)@
            },
        },
{
    let m = match pattern.find(buffer.as_slice()) {
        Some(m) => m,
        None => {
            return Err(PatchError::PatternNotFound);
        },
    };
    let ps = match m.checked_add_signed(with_offset) {
        Some(ps) => ps,
        None => {
            return Err(PatchError::OffsetOverflow);
        },
    };
    let wlen = with.len();
    let blen = buffer.len();
    if wlen > blen || ps > blen - wlen {
        return Err(PatchError::OutOfBounds);
    }
    let mut k: usize = 0;
    while k < wlen
        invariant
            wlen == with@.len(),
            k <= wlen,
            ps + wlen <= buffer@.len(),
            buffer@.len() <= usize::MAX,
            buffer@.len() == old(buffer)@.len(),
            first_match(old(buffer)@, pattern@) == Some(m as int),
            ps == m + with_offset,
            forall|j: int|
                0 <= j < buffer@.len() && !(ps <= j < ps + k) ==> buffer@[j] == old(buffer)@[j],
            forall|j: int| ps <= j < ps + k ==> buffer@[j] == with@[j - ps],
        decreases wlen - k,
    {
        let b = with[k];
        buffer.set(ps + k, b);
        k += 1;
    }
    proof {
        assert(buffer@ =~= spliced(old(buffer)@, ps as int, with@));
    }
    Ok(m)
}

/// Compile `sig` and apply it to the buffer as `apply` does. This is one
/// whole patch directive: a malformed signature fails it with
/// `InvalidPattern` before anything is searched or written.
pub fn apply_patch(target: &mut Vec<u8>, sig: &str, with: &[u8], with_offset: isize) -> (r: Result<
    usize,
    PatchError,
>)
    ensures
        match r {
            Ok(m) => {
                &&& patch_step(old(target)@, sig@, with@, with_offset as int) == Ok::<
                    Seq<u8>,
                    PatchError,
                >(final(target)@)
                &&& match sig_tokens(sig@) {
                    Some(toks) => first_match(old(target)@, toks) == Some(m as int),
                    None => false,
                }
            },
            Err(e) => {
                &&& patch_step(old(target)@, sig@, with@, with_offset as int) == Err::<
                    Seq<u8>,
                    PatchError,
                >(e)
                &&& final(target)@ == old(target)@
            },
        },
{
    let p = match Pattern::compile(sig) {
        Ok(p) => p,
        Err(e) => {
            return Err(e);
        },
    };
    apply(target, &p, with, with_offset)
}

/// Apply a list of directives in order against the same evolving buffer:
/// each directive searches the buffer as the previous ones left it. The
/// first failure stops the run and reports which directive failed and why;
/// the directives before it remain applied, so the caller must not persist
/// the buffer after a failure.
pub fn apply_patches(target: &mut Vec<u8>, patches: &Vec<PatchDirective>) -> (r: Result<
    (),
    PatchFailure,
>)
    ensures
        match r {
            Ok(_) => run_patches(old(target)@, patches@) == Ok::<Seq<u8>, (int, PatchError)>(
                final(target)@,
            ),
            Err(f) => {
                &&& f.index < patches@.len()
                &&& run_patches(old(target)@, patches@) == Err::<Seq<u8>, (int, PatchError)>(
                    (f.index as int, f.error),
                )
                &&& run_patches(old(target)@, patches@.take(f.index as int)) == Ok::<
                    Seq<u8>,
                    (int, PatchError),
                >(final(target)@)
                &&& directive_step(final(target)@, patches@[f.index as int]) == Err::<Seq<u8>, PatchError>(
                    f.error,
                )
            },
        },
{
    let n = patches.len();
    let mut idx: usize = 0;
    while idx < n
        invariant
            n == patches@.len(),
            idx <= n,
            run_patches(old(target)@, patches@.take(idx as int)) == Ok::<
                Seq<u8>,
                (int, PatchError),
            >(target@),
        decreases n - idx,
    {
        let ghost pre = target@;
        let d = &patches[idx];
        let off = match d.with_offset {
            Some(o) => o,
            None => 0,
        };
        match apply_patch(target, d.sig.as_str(), d.with.as_slice(), off) {
            Ok(_) => {
                proof {
                    assert(directive_step(pre, patches@[idx as int]) == Ok::<Seq<u8>, PatchError>(
                        target@,
                    ));
                    lemma_run_patches_snoc(old(target)@, patches@.take(idx as int), patches@[idx as int]);
                    assert(patches@.take(idx as int).push(patches@[idx as int]) =~= patches@.take(
                        idx + 1,
                    ));
                }
            },
            Err(e) => {
                proof {
                    assert(directive_step(pre, patches@[idx as int]) == Err::<Seq<u8>, PatchError>(
                        e,
                    ));
                    lemma_run_patches_snoc(old(target)@, patches@.take(idx as int), patches@[idx as int]);
                    assert(patches@.take(idx as int).push(patches@[idx as int]) =~= patches@.take(
                        idx + 1,
                    ));
                    lemma_run_patches_err_extends(old(target)@, patches@, idx + 1);
                }
                return Err(PatchFailure { index: idx, error: e });
            },
        }
        idx += 1;
    }
    proof {
        assert(patches@.take(n as int) =~= patches@);
    }
    Ok(())
}

} // verus!
