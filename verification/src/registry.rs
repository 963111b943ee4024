//! An ordered list of backends.
use crate::algorithm::{Algorithm, Capability};
use crate::codec::CodecBackend;
use crate::error::Error;
use crate::text;
use std::sync::Arc;
use vstd::prelude::*;

verus! {

/// Backends in order of preference. Where one does not support an algorithm,
/// the next that does is taken.
pub struct BackendRegistry<B: CodecBackend> {
    backends: Vec<Arc<B>>,
}

impl<B: CodecBackend> View for BackendRegistry<B> {
    type V = Seq<Arc<B>>;

    /// The backends, the preferred ones first.
    closed spec fn view(&self) -> Seq<Arc<B>> {
        self.backends@
    }
}

/// The first backend from `i` on that can compress with the algorithm, or the
/// number of backends.
pub open spec fn first_compressor<B: CodecBackend>(
    backends: Seq<Arc<B>>,
    algo: Algorithm,
    i: int,
) -> int
    decreases backends.len() - i,
{
    if i < 0 || i >= backends.len() || backends[i].supports_spec(algo).can_compress() {
        i
    } else {
        first_compressor(backends, algo, i + 1)
    }
}

/// The first backend from `i` on that can decompress the algorithm, or the
/// number of backends.
pub open spec fn first_decompressor<B: CodecBackend>(
    backends: Seq<Arc<B>>,
    algo: Algorithm,
    i: int,
) -> int
    decreases backends.len() - i,
{
    if i < 0 || i >= backends.len() || backends[i].supports_spec(algo).can_decompress() {
        i
    } else {
        first_decompressor(backends, algo, i + 1)
    }
}

/// The first backend from `i` on that has the name, or the number of backends.
pub open spec fn first_named<B: CodecBackend>(
    backends: Seq<Arc<B>>,
    name: Seq<char>,
    i: int,
) -> int
    decreases backends.len() - i,
{
    if i < 0 || i >= backends.len() || backends[i].name_spec() == name {
        i
    } else {
        first_named(backends, name, i + 1)
    }
}

impl<B: CodecBackend> Default for BackendRegistry<B> {
    fn default() -> (r: Self)
        ensures
            r@ == Seq::<Arc<B>>::empty(),
    {
        BackendRegistry { backends: Vec::new() }
    }
}

impl<B: CodecBackend> BackendRegistry<B> {
    pub fn new() -> (r: Self)
        ensures
            r@ == Seq::<Arc<B>>::empty(),
    {
        BackendRegistry { backends: Vec::new() }
    }

    /// Adds a backend behind those that are there.
    pub fn push(&mut self, backend: Arc<B>)
        ensures
            final(self)@ == old(self)@.push(backend),
    {
        self.backends.push(backend);
    }

    /// The names of the backends, in order.
    pub fn names(&self) -> (r: Vec<&'static str>)
        ensures
            r@.len() == self@.len(),
            forall|i: int| 0 <= i < self@.len() ==> (#[trigger] r@[i])@ == self@[i].name_spec(),
    {
        let mut out: Vec<&'static str> = Vec::with_capacity(self.backends.len());
        let mut i: usize = 0;
        while i < self.backends.len()
            invariant
                i <= self.backends@.len(),
                self@ == self.backends@,
                out@.len() == i,
                forall|k: int| 0 <= k < i ==> (#[trigger] out@[k])@ == self@[k].name_spec(),
            decreases self.backends@.len() - i,
        {
            out.push(self.backends[i].name());
            i = i + 1;
        }
        out
    }

    /// The first backend that can compress with `algo`.
    pub fn pick_compressor(&self, algo: Algorithm) -> (r: Result<Arc<B>, Error>)
        ensures
            ({
                let k = first_compressor(self@, algo, 0);
                if k < self@.len() {
                    r == Ok::<Arc<B>, Error>(self@[k])
                } else {
                    r == Err::<Arc<B>, Error>(Error::NoBackend { algo })
                }
            }),
    {
        let mut i: usize = 0;
        while i < self.backends.len()
            invariant
                i <= self.backends@.len(),
                self@ == self.backends@,
                first_compressor(self@, algo, i as int) == first_compressor(self@, algo, 0),
            decreases self.backends@.len() - i,
        {
            if self.backends[i].supports(algo).can_compress() {
                return Ok(Arc::clone(&self.backends[i]));
            }
            i = i + 1;
        }
        Err(Error::NoBackend { algo })
    }

    /// The first backend that can decompress `algo`.
    pub fn pick_decompressor(&self, algo: Algorithm) -> (r: Result<Arc<B>, Error>)
        ensures
            ({
                let k = first_decompressor(self@, algo, 0);
                if k < self@.len() {
                    r == Ok::<Arc<B>, Error>(self@[k])
                } else {
                    r == Err::<Arc<B>, Error>(Error::NoBackend { algo })
                }
            }),
    {
        let mut i: usize = 0;
        while i < self.backends.len()
            invariant
                i <= self.backends@.len(),
                self@ == self.backends@,
                first_decompressor(self@, algo, i as int) == first_decompressor(self@, algo, 0),
            decreases self.backends@.len() - i,
        {
            if self.backends[i].supports(algo).can_decompress() {
                return Ok(Arc::clone(&self.backends[i]));
            }
            i = i + 1;
        }
        Err(Error::NoBackend { algo })
    }

    /// The first backend with the given name.
    pub fn by_name(&self, name: &str) -> (r: Option<Arc<B>>)
        ensures
            ({
                let k = first_named(self@, name@, 0);
                if k < self@.len() {
                    r == Some(self@[k])
                } else {
                    r is None
                }
            }),
    {
        let mut i: usize = 0;
        while i < self.backends.len()
            invariant
                i <= self.backends@.len(),
                self@ == self.backends@,
                first_named(self@, name@, i as int) == first_named(self@, name@, 0),
            decreases self.backends@.len() - i,
        {
            if text::same_text(self.backends[i].name(), name) {
                return Some(Arc::clone(&self.backends[i]));
            }
            i = i + 1;
        }
        None
    }
}

proof fn lemma_first_compressor<B: CodecBackend>(backends: Seq<Arc<B>>, algo: Algorithm, i: int)
    requires
        0 <= i <= backends.len(),
    ensures
        i <= first_compressor(backends, algo, i) <= backends.len(),
        forall|j: int|
            i <= j < first_compressor(backends, algo, i)
                ==> !(#[trigger] backends[j]).supports_spec(algo).can_compress(),
        first_compressor(backends, algo, i) < backends.len() ==> backends[first_compressor(
            backends,
            algo,
            i,
        )].supports_spec(algo).can_compress(),
    decreases backends.len() - i,
{
    if i < backends.len() && !backends[i].supports_spec(algo).can_compress() {
        lemma_first_compressor(backends, algo, i + 1);
    }
}

proof fn lemma_first_decompressor<B: CodecBackend>(backends: Seq<Arc<B>>, algo: Algorithm, i: int)
    requires
        0 <= i <= backends.len(),
    ensures
        i <= first_decompressor(backends, algo, i) <= backends.len(),
        forall|j: int|
            i <= j < first_decompressor(backends, algo, i)
                ==> !(#[trigger] backends[j]).supports_spec(algo).can_decompress(),
        first_decompressor(backends, algo, i) < backends.len() ==> backends[first_decompressor(
            backends,
            algo,
            i,
        )].supports_spec(algo).can_decompress(),
    decreases backends.len() - i,
{
    if i < backends.len() && !backends[i].supports_spec(algo).can_decompress() {
        lemma_first_decompressor(backends, algo, i + 1);
    }
}

/// The backend that is picked can do the work, and no preferred one can. None
/// is picked only if none can.
pub proof fn law_picked_backend_is_the_first_capable<B: CodecBackend>(
    backends: Seq<Arc<B>>,
    algo: Algorithm,
)
    ensures
        ({
            let k = first_compressor(backends, algo, 0);
            &&& 0 <= k <= backends.len()
            &&& k < backends.len() ==> backends[k].supports_spec(algo).can_compress()
            &&& forall|j: int|
                0 <= j < k ==> !(#[trigger] backends[j]).supports_spec(algo).can_compress()
        }),
        ({
            let k = first_decompressor(backends, algo, 0);
            &&& 0 <= k <= backends.len()
            &&& k < backends.len() ==> backends[k].supports_spec(algo).can_decompress()
            &&& forall|j: int|
                0 <= j < k ==> !(#[trigger] backends[j]).supports_spec(algo).can_decompress()
        }),
{
    lemma_first_compressor(backends, algo, 0);
    lemma_first_decompressor(backends, algo, 0);
}

proof fn lemma_first_named<B: CodecBackend>(backends: Seq<Arc<B>>, name: Seq<char>, i: int)
    requires
        0 <= i <= backends.len(),
    ensures
        i <= first_named(backends, name, i) <= backends.len(),
        forall|j: int|
            i <= j < first_named(backends, name, i) ==> (#[trigger] backends[j]).name_spec()
                != name,
        first_named(backends, name, i) < backends.len() ==> backends[first_named(
            backends,
            name,
            i,
        )].name_spec() == name,
    decreases backends.len() - i,
{
    if i < backends.len() && backends[i].name_spec() != name {
        lemma_first_named(backends, name, i + 1);
    }
}

/// The backend of a name is the first that has it, and is found wherever one has
/// it.
pub proof fn law_named_backend_is_the_first<B: CodecBackend>(
    registry: &BackendRegistry<B>,
    name: &str,
    r: Option<Arc<B>>,
)
    requires
        call_ensures(BackendRegistry::<B>::by_name, (registry, name), r),
    ensures
        r is None ==> forall|j: int|
            0 <= j < registry@.len() ==> (#[trigger] registry@[j]).name_spec() != name@,
        r matches Some(found) ==> exists|k: int|
            0 <= k < registry@.len() && #[trigger] registry@[k] == found && found.name_spec()
                == name@ && forall|j: int|
                0 <= j < k ==> (#[trigger] registry@[j]).name_spec() != name@,
{
    lemma_first_named(registry@, name@, 0);
    let k = first_named(registry@, name@, 0);
    if k < registry@.len() {
        assert(registry@[k].name_spec() == name@);
    }
}

/// A backend that is picked is in the registry and can do the work, and none in
/// front of it can. There is an error only where none can.
pub proof fn law_picks_are_the_first_capable<B: CodecBackend>(
    registry: &BackendRegistry<B>,
    algo: Algorithm,
    writer: Result<Arc<B>, Error>,
    reader: Result<Arc<B>, Error>,
)
    requires
        call_ensures(BackendRegistry::<B>::pick_compressor, (registry, algo), writer),
        call_ensures(BackendRegistry::<B>::pick_decompressor, (registry, algo), reader),
    ensures
        writer is Err ==> forall|j: int|
            0 <= j < registry@.len() ==> !(#[trigger] registry@[j]).supports_spec(
                algo,
            ).can_compress(),
        writer matches Ok(b) ==> exists|k: int|
            0 <= k < registry@.len() && #[trigger] registry@[k] == b && b.supports_spec(
                algo,
            ).can_compress() && forall|j: int|
                0 <= j < k ==> !(#[trigger] registry@[j]).supports_spec(algo).can_compress(),
        reader is Err ==> forall|j: int|
            0 <= j < registry@.len() ==> !(#[trigger] registry@[j]).supports_spec(
                algo,
            ).can_decompress(),
        reader matches Ok(b) ==> exists|k: int|
            0 <= k < registry@.len() && #[trigger] registry@[k] == b && b.supports_spec(
                algo,
            ).can_decompress() && forall|j: int|
                0 <= j < k ==> !(#[trigger] registry@[j]).supports_spec(algo).can_decompress(),
{
    lemma_first_compressor(registry@, algo, 0);
    lemma_first_decompressor(registry@, algo, 0);
    let k = first_compressor(registry@, algo, 0);
    if k < registry@.len() {
        assert(registry@[k].supports_spec(algo).can_compress());
    }
    let d = first_decompressor(registry@, algo, 0);
    if d < registry@.len() {
        assert(registry@[d].supports_spec(algo).can_decompress());
    }
}

/// A backend can do with an algorithm what its capability says, and no more.
pub proof fn law_capabilities(c: Capability)
    ensures
        c is Both <==> c.can_compress() && c.can_decompress(),
        c is Unsupported <==> !c.can_compress() && !c.can_decompress(),
        c is CompressOnly <==> c.can_compress() && !c.can_decompress(),
        c is DecompressOnly <==> !c.can_compress() && c.can_decompress(),
{
}

} // verus!
