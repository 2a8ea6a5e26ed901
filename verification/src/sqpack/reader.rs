//! Packages that read files through a provider: the provider fetches the
//! compressed bytes, and [`SqPackRawFile::decode`](super::raw_file::SqPackRawFile::decode)
//! turns them into the file.
use vstd::prelude::*;

use super::decoder::DecodeError;
use super::raw_file::{spec_decode, SqPackRawFile};

verus! {

/// The hash under which a file is stored: those of its folder, of its name,
/// and of its whole path.
#[derive(Clone, Copy, Debug, PartialEq, Eq, Structural)]
pub struct SqPackFileHash {
    pub folder: u32,
    pub file: u32,
    pub path: u32,
}

/// The position of the first of `hashes`, from position `i` on, equal to `h`.
pub open spec fn hash_position(hashes: Seq<SqPackFileHash>, h: SqPackFileHash, i: int) -> Option<int>
    decreases hashes.len() - i,
{
    if i < 0 || i >= hashes.len() {
        None
    } else if hashes[i] == h {
        Some(i)
    } else {
        hash_position(hashes, h, i + 1)
    }
}

/// The files from position `i` on, each paired with the position of the
/// requested hash it answers and decoded; the first file that does not
/// decode gives its error.
pub open spec fn spec_decode_files(
    hashes: Seq<SqPackFileHash>,
    files: Seq<(SqPackFileHash, Seq<u8>)>,
    i: int,
) -> Result<Seq<(usize, Seq<u8>)>, DecodeError>
    decreases files.len() - i,
{
    if i < 0 || i >= files.len() {
        Ok(seq![])
    } else {
        match spec_decode(files[i].1) {
            Err(e) => Err(e),
            Ok(d) => match spec_decode_files(hashes, files, i + 1) {
                Err(e) => Err(e),
                Ok(rest) => Ok(seq![(hash_position(hashes, files[i].0, 0)->0 as usize, d)] + rest),
            },
        }
    }
}

pub open spec fn files_view(files: Seq<(SqPackFileHash, Vec<u8>)>) -> Seq<(SqPackFileHash, Seq<u8>)> {
    files.map_values(|f: (SqPackFileHash, Vec<u8>)| (f.0, f.1@))
}

pub open spec fn decoded_view(out: Seq<(usize, Vec<u8>)>) -> Seq<(usize, Seq<u8>)> {
    out.map_values(|f: (usize, Vec<u8>)| (f.0, f.1@))
}

/// `r` with `prefix` put before its files.
pub open spec fn prepend_files(
    prefix: Seq<(usize, Seq<u8>)>,
    r: Result<Seq<(usize, Seq<u8>)>, DecodeError>,
) -> Result<Seq<(usize, Seq<u8>)>, DecodeError> {
    match r {
        Ok(rest) => Ok(prefix + rest),
        Err(e) => Err(e),
    }
}

/// The position of the first of `hashes` equal to `h`, which must be there.
fn find_hash(hashes: &Vec<SqPackFileHash>, h: SqPackFileHash) -> (r: usize)
    requires
        hash_position(hashes@, h, 0) is Some,
    ensures
        r == hash_position(hashes@, h, 0)->0,
{
    let mut i: usize = 0;
    while i < hashes.len()
        invariant
            i <= hashes@.len(),
            hash_position(hashes@, h, 0) == hash_position(hashes@, h, i as int),
            hash_position(hashes@, h, i as int) is Some,
        decreases hashes@.len() - i,
    {
        if hashes[i] == h {
            return i;
        }
        i = i + 1;
    }
    i
}

/// The files a provider returned for a batch of requested hashes, each paired
/// with the position of the hash it answers and decoded. Every returned hash
/// must be one that was requested.
pub fn decode_files(hashes: &Vec<SqPackFileHash>, files: Vec<(SqPackFileHash, Vec<u8>)>) -> (r: Result<
    Vec<(usize, Vec<u8>)>,
    DecodeError,
>)
    requires
        forall|i: int| 0 <= i < files@.len() ==> hash_position(hashes@, #[trigger] files@[i].0, 0) is Some,
    ensures
        match spec_decode_files(hashes@, files_view(files@), 0) {
            Ok(v) => r matches Ok(x) && decoded_view(x@) == v,
            Err(e) => r == Err::<Vec<(usize, Vec<u8>)>, DecodeError>(e),
        },
{
    let ghost fv = files_view(files@);
    let ghost n = files@.len();
    let mut rest = files;
    let mut out: Vec<(usize, Vec<u8>)> = Vec::new();
    while rest.len() > 0
        invariant
            fv == files_view(files@),
            fv.len() == n,
            rest@.len() <= n,
            forall|j: int| 0 <= j < rest@.len() ==> (#[trigger] rest@[j]).0 == fv[n - rest@.len() + j].0
                && rest@[j].1@ == fv[n - rest@.len() + j].1,
            forall|j: int| 0 <= j < fv.len() ==> hash_position(hashes@, #[trigger] fv[j].0, 0) is Some,
            spec_decode_files(hashes@, fv, 0) == prepend_files(
                decoded_view(out@),
                spec_decode_files(hashes@, fv, n - rest@.len()),
            ),
        decreases rest@.len(),
    {
        let ghost k = n - rest@.len();
        let ghost prev_rest = rest@;
        let ghost prev_out = decoded_view(out@);
        let (h, data) = rest.remove(0);
        assert(h == fv[k].0 && data@ == fv[k].1);
        let position = find_hash(hashes, h);
        let decoded = match SqPackRawFile::decode(data) {
            Ok(d) => d,
            Err(e) => {
                assert(spec_decode_files(hashes@, fv, k) == Err::<Seq<(usize, Seq<u8>)>, DecodeError>(e));
                assert(spec_decode_files(hashes@, fv, 0) == Err::<Seq<(usize, Seq<u8>)>, DecodeError>(e));
                return Err(e);
            },
        };
        out.push((position, decoded));
        assert(decoded_view(out@) =~= prev_out.push((position, decoded@)));
        assert(prepend_files(prev_out, spec_decode_files(hashes@, fv, k)) == prepend_files(
            decoded_view(out@),
            spec_decode_files(hashes@, fv, k + 1),
        )) by {
            match spec_decode_files(hashes@, fv, k + 1) {
                Ok(r2) => {
                    assert(prev_out + (seq![(position, decoded@)] + r2) =~= prev_out.push((position, decoded@)) + r2);
                },
                Err(_) => {},
            }
        }
        assert forall|j: int| 0 <= j < rest@.len() implies (#[trigger] rest@[j]).0 == fv[n - rest@.len() + j].0
            && rest@[j].1@ == fv[n - rest@.len() + j].1 by {
            assert(rest@[j] == prev_rest[j + 1]);
        }
    }
    assert(decoded_view(out@) + Seq::<(usize, Seq<u8>)>::empty() =~= decoded_view(out@));
    Ok(out)
}

/// `std::io::Error`, carried through unchanged.
#[verifier::external_type_specification]
#[verifier::external_body]
pub struct ExIoError(std::io::Error);

/// A package that reads whole compressed files through a provider.
pub struct SqPackReaderFile<P> {
    provider: P,
}

impl<P> SqPackReaderFile<P> {
    /// A package over the given provider; this always succeeds.
    pub fn new(provider: P) -> (r: Result<Self, std::io::Error>)
        ensures
            r matches Ok(x) && x.provider() == provider,
    {
        Ok(SqPackReaderFile { provider })
    }

    pub closed spec fn provider(&self) -> P {
        self.provider
    }

    /// The provider the package reads through.
    pub fn get_provider(&self) -> (r: &P)
        ensures
            *r == self.provider(),
    {
        &self.provider
    }
}

/// A package that reads extracted compressed files, by hash, through a provider.
pub struct SqPackReaderExtractedFile<P> {
    provider: P,
}

impl<P> SqPackReaderExtractedFile<P> {
    /// A package over the given provider; this always succeeds.
    pub fn new(provider: P) -> (r: Result<Self, std::io::Error>)
        ensures
            r matches Ok(x) && x.provider() == provider,
    {
        Ok(SqPackReaderExtractedFile { provider })
    }

    pub closed spec fn provider(&self) -> P {
        self.provider
    }

    /// The provider the package reads through.
    pub fn get_provider(&self) -> (r: &P)
        ensures
            *r == self.provider(),
    {
        &self.provider
    }
}

} // verus!
