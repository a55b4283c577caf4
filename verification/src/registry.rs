//! Converters and the registry that keys them by the pair of formats they
//! join.

use crate::error::{conversion_outcome, ConvertError};
use crate::format::FileType;
use crate::search::{is_shortest_path, lemma_direct_edge_path, reachable, shortest_path};
use vstd::prelude::*;

verus! {

/// The failure message in what a converter returned, if it failed.
pub open spec fn failure_of(r: Result<(), String>) -> Option<Seq<char>> {
    match r {
        Ok(_) => None,
        Err(message) => Some(message@),
    }
}

/// A single directed conversion: it turns a file of its source format at one
/// path into a file of its target format at another path.
pub trait Converter: Send + Sync {
    /// The format this converter reads.
    spec fn source(&self) -> FileType;

    /// The format this converter writes.
    spec fn target(&self) -> FileType;

    /// The results that one run of this converter on these two paths may
    /// give: success (`None`) or a failure with its message. A converter
    /// that promises nothing admits every result.
    open spec fn admits(
        &self,
        input_path: Seq<char>,
        output_path: Seq<char>,
        failure: Option<Seq<char>>,
    ) -> bool {
        true
    }

    /// Reads the file at `input_path` and writes its conversion to
    /// `output_path`, replacing what was there. After a failure the output
    /// is not to be used.
    fn convert(&self, input_path: &String, output_path: &String) -> (r: Result<(), String>)
        ensures
            self.admits(input_path@, output_path@, failure_of(r)),
    ;

    fn from_type(&self) -> (t: FileType)
        ensures
            t == self.source(),
    ;

    fn to_type(&self) -> (t: FileType)
        ensures
            t == self.target(),
    ;
}

/// What a direct conversion through `registry` may return: the failure that
/// names the pair where no converter joins it, else a result that the
/// pair's converter admits on these paths.
pub open spec fn direct_result<C: Converter>(
    registry: Map<(FileType, FileType), C>,
    from: FileType,
    to: FileType,
    input: Seq<char>,
    output: Seq<char>,
    r: Result<(), ConvertError>,
) -> bool {
    if registry.dom().contains((from, to)) {
        match r {
            Ok(_) => registry[(from, to)].admits(input, output, None),
            Err(ConvertError::ConversionFailure(m)) => registry[(from, to)].admits(
                input,
                output,
                Some(m@),
            ),
            Err(_) => false,
        }
    } else {
        r == Err::<(), ConvertError>(ConvertError::NoDirectConverter { from, to })
    }
}

/// The map that results from registering `added` one after the other, the
/// first first, on top of `registry`.
pub open spec fn register_all<C: Converter>(
    registry: Map<(FileType, FileType), C>,
    added: Seq<C>,
) -> Map<(FileType, FileType), C>
    decreases added.len(),
{
    if added.len() == 0 {
        registry
    } else {
        register_all(
            registry.insert((added[0].source(), added[0].target()), added[0]),
            added.drop_first(),
        )
    }
}

/// Once a converter is registered, the pair it joins is a direct edge, and
/// where its two formats differ the only shortest path between them is that
/// edge.
pub proof fn lemma_registered_pair_is_direct<C: Converter>(
    registry: Map<(FileType, FileType), C>,
    converter: C,
    p: Seq<FileType>,
)
    requires
        converter.source() != converter.target(),
        is_shortest_path(
            registry.insert((converter.source(), converter.target()), converter).dom(),
            p,
            converter.source(),
            converter.target(),
        ),
    ensures
        registry.insert((converter.source(), converter.target()), converter).dom().contains(
            (converter.source(), converter.target()),
        ),
        p == seq![converter.source(), converter.target()],
{
    let after = registry.insert((converter.source(), converter.target()), converter);
    lemma_direct_edge_path(after.dom(), p, converter.source(), converter.target());
}

/// Of two converters registered for the same pair, the one registered last
/// is the one the registry holds, as if the first had never been there.
pub proof fn lemma_newest_registration_wins<C: Converter>(
    registry: Map<(FileType, FileType), C>,
    first: C,
    second: C,
)
    requires
        first.source() == second.source(),
        first.target() == second.target(),
    ensures
        register_all(registry, seq![first, second])[(second.source(), second.target())] == second,
        register_all(registry, seq![first, second]) == registry.insert(
            (second.source(), second.target()),
            second,
        ),
{
    let key = (second.source(), second.target());
    let both = seq![first, second];
    assert(both.drop_first() =~= seq![second]);
    assert(seq![second].drop_first() =~= Seq::<C>::empty());
    assert(register_all(registry.insert(key, first).insert(key, second), Seq::<C>::empty())
        == registry.insert(key, first).insert(key, second));
    assert(register_all(registry.insert(key, first), seq![second]) == registry.insert(
        key,
        first,
    ).insert(key, second));
    assert(register_all(registry, both) == registry.insert(key, first).insert(key, second));
    assert(registry.insert(key, first).insert(key, second) =~= registry.insert(key, second));
}

/// The registered converters, at most one for each ordered pair of formats.
pub struct ConverterRegistry<C: Converter> {
    /// The pair that each stored converter joins, in the order of
    /// `converters`.
    keys: Vec<(FileType, FileType)>,
    converters: Vec<C>,
}

impl<C: Converter> ConverterRegistry<C> {
    /// Each stored converter stands under the pair it declares, and no two
    /// stand under the same pair.
    pub closed spec fn wf(&self) -> bool {
        &&& self.keys@.len() == self.converters@.len()
        &&& forall|i: int|
            0 <= i < self.keys@.len() ==> (#[trigger] self.keys@[i]) == (
                self.converters@[i].source(),
                self.converters@[i].target(),
            )
        &&& forall|i: int, j: int|
            0 <= i < j < self.keys@.len() ==> #[trigger] self.keys@[i] != #[trigger] self.keys@[j]
    }

    spec fn position(&self, key: (FileType, FileType)) -> int {
        self.keys@.index_of(key)
    }

    /// The registry as a map from each joined pair to its converter.
    pub closed spec fn view(&self) -> Map<(FileType, FileType), C> {
        Map::new(
            |key: (FileType, FileType)| self.keys@.contains(key),
            |key: (FileType, FileType)| self.converters@[self.position(key)],
        )
    }

    /// The edges of the conversion graph.
    pub open spec fn edges(&self) -> Set<(FileType, FileType)> {
        self@.dom()
    }

    /// A registry without converters.
    pub fn new() -> (registry: Self)
        ensures
            registry.wf(),
            registry@ == Map::<(FileType, FileType), C>::empty(),
    {
        let registry = ConverterRegistry { keys: Vec::new(), converters: Vec::new() };
        assert(registry@ =~= Map::<(FileType, FileType), C>::empty());
        registry
    }

    fn lookup(&self, from: FileType, to: FileType) -> (found: Option<usize>)
        ensures
            match found {
                Some(i) => i < self.keys@.len() && self.keys@[i as int] == (from, to),
                None => !self.keys@.contains((from, to)),
            },
    {
        let mut i: usize = 0;
        while i < self.keys.len()
            invariant
                i <= self.keys@.len(),
                forall|k: int| 0 <= k < i ==> self.keys@[k] != (from, to),
            decreases self.keys@.len() - i,
        {
            let (f, t) = self.keys[i];
            if f == from && t == to {
                return Some(i);
            }
            i += 1;
        }
        None
    }

    /// Stores `converter` under the pair it joins. A converter stored
    /// before for the same pair is replaced.
    pub fn register(&mut self, converter: C)
        requires
            old(self).wf(),
        ensures
            final(self).wf(),
            final(self)@ == old(self)@.insert((converter.source(), converter.target()), converter),
            final(self)@.dom().contains((converter.source(), converter.target())),
            final(self)@[(converter.source(), converter.target())] == converter,
    {
        let ghost added = converter;
        let ghost before = *self;
        let from = converter.from_type();
        let to = converter.to_type();
        let ghost key = (from, to);
        match self.lookup(from, to) {
            Some(i) => {
                self.converters.set(i, converter);
                proof {
                    assert(self.keys@.index_of(key) == i);
                    assert forall|n: int| 0 <= n < self.keys@.len() implies (
                    #[trigger] self.keys@[n]) == (
                        self.converters@[n].source(),
                        self.converters@[n].target(),
                    ) by {
                        if n != i {
                            assert(before.keys@[n] == (
                                before.converters@[n].source(),
                                before.converters@[n].target(),
                            ));
                        }
                    }
                }
            },
            None => {
                self.keys.push((from, to));
                self.converters.push(converter);
                proof {
                    assert(self.keys@[self.keys@.len() - 1] == key);
                    assert(self.keys@.index_of(key) == self.keys@.len() - 1);
                    assert forall|n: int| 0 <= n < self.keys@.len() implies (
                    #[trigger] self.keys@[n]) == (
                        self.converters@[n].source(),
                        self.converters@[n].target(),
                    ) by {
                        if n < before.keys@.len() {
                            assert(before.keys@[n] == (
                                before.converters@[n].source(),
                                before.converters@[n].target(),
                            ));
                        }
                    }
                }
            },
        }
        proof {
            assert(self.wf());
            assert forall|k: (FileType, FileType)|
                self.keys@.contains(k) == (before.keys@.contains(k) || k == key) by {
                if before.keys@.contains(k) {
                    let n = before.keys@.index_of(k);
                    assert(self.keys@[n] == k);
                }
            }
            assert forall|k: (FileType, FileType)| self.keys@.contains(k) implies #[trigger] self@[k]
                == before@.insert(key, added)[k] by {
                let n = self.keys@.index_of(k);
                assert(self@[k] == self.converters@[n]);
                if k != key {
                    let m = before.keys@.index_of(k);
                    assert(self.keys@[m] == k);
                    assert(n == m);
                    assert(before@[k] == before.converters@[m]);
                } else {
                    assert(self.converters@[n] == added);
                }
            }
            assert(self@ =~= before@.insert(key, added));
        }
    }

    /// Whether a converter joins exactly this ordered pair. Chains of
    /// converters are not considered.
    pub fn can_convert(&self, from: FileType, to: FileType) -> (direct: bool)
        ensures
            direct == self@.dom().contains((from, to)),
    {
        self.lookup(from, to).is_some()
    }

    /// Runs the converter that joins `from` to `to` on the two paths and
    /// hands its result on. Where no converter joins the pair, nothing is
    /// run and the failure names the pair.
    pub fn convert(&self, from: &FileType, to: &FileType, input: &String, output: &String) -> (r:
        Result<(), ConvertError>)
        requires
            self.wf(),
        ensures
            direct_result(self@, *from, *to, input@, output@, r),
    {
        match self.lookup(*from, *to) {
            Some(i) => {
                proof {
                    assert(self.keys@.index_of((*from, *to)) == i);
                    assert(self@[(*from, *to)] == self.converters@[i as int]);
                }
                conversion_outcome(self.converters[i].convert(input, output))
            },
            None => Err(ConvertError::NoDirectConverter { from: *from, to: *to }),
        }
    }

    /// A chain of formats from `from` to `to` in which each format is joined
    /// to the next by a registered converter, with as few hops as any such
    /// chain has; `None` exactly when no chain exists. A format reaches
    /// itself by the chain of that one format, whatever is registered.
    pub fn find_conversion_path(&self, from: FileType, to: FileType) -> (r: Option<Vec<FileType>>)
        ensures
            match r {
                Some(p) => is_shortest_path(self.edges(), p@, from, to),
                None => !reachable(self.edges(), from, to),
            },
            from == to ==> r is Some && r->0@ == seq![from],
    {
        proof {
            assert(self.keys@.to_set() =~= self.edges());
        }
        shortest_path(&self.keys, from, to)
    }
}

} // verus!
