//! A conversion request: where it reads, what it writes, and the hops it is
//! carried out by.

use crate::error::{ConfigurationIssue, ConvertError};
use crate::format::FileType;
use crate::paths::{default_output, default_output_of, temp_path, temp_path_of};
use crate::registry::{direct_result, register_all, Converter, ConverterRegistry};
use crate::search::{is_path, is_shortest_path, reachable};
use vstd::prelude::*;

verus! {

/// One step of a conversion: the converter that joins `from` to `to` reads
/// `input` and writes `output`.
#[derive(Debug)]
pub struct Hop {
    pub from: FileType,
    pub to: FileType,
    pub input: String,
    pub output: String,
}

/// A hop with its paths as text.
pub struct HopView {
    pub from: FileType,
    pub to: FileType,
    pub input: Seq<char>,
    pub output: Seq<char>,
}

impl View for Hop {
    type V = HopView;

    open spec fn view(&self) -> HopView {
        HopView { from: self.from, to: self.to, input: self.input@, output: self.output@ }
    }
}

/// The output path of a request: the one the caller named, else the source
/// path with the target's canonical extension.
pub open spec fn resolved_output(
    source: Seq<char>,
    target: FileType,
    explicit: Option<Seq<char>>,
) -> Seq<char> {
    match explicit {
        Some(path) => path,
        None => default_output_of(source, target),
    }
}

/// The path that hop `i` of `route` reads: the source for the first hop,
/// and for each later hop the intermediate file that the hop before it
/// wrote. `None` from the first hop on whose input names no file.
pub open spec fn hop_input(route: Seq<FileType>, source: Seq<char>, i: nat) -> Option<Seq<char>>
    decreases i,
{
    if i == 0 {
        Some(source)
    } else {
        match hop_input(route, source, (i - 1) as nat) {
            Some(previous) => temp_path_of(previous, route[i as int]),
            None => None,
        }
    }
}

/// Every hop of `route` has an input path.
pub open spec fn nameable(route: Seq<FileType>, source: Seq<char>) -> bool {
    forall|i: nat| i + 1 < route.len() ==> (#[trigger] hop_input(route, source, i)) is Some
}

/// `hops` carries `source` along `route`: one hop for each two neighbouring
/// formats, each reading what the hop before it wrote, the last writing
/// `output` and every other an intermediate file.
pub open spec fn is_plan(
    hops: Seq<Hop>,
    route: Seq<FileType>,
    source: Seq<char>,
    output: Seq<char>,
) -> bool {
    &&& hops.len() == route.len() - 1
    &&& forall|i: int|
        0 <= i < hops.len() ==> (#[trigger] hops[i])@ == (HopView {
            from: route[i],
            to: route[i + 1],
            input: hop_input(route, source, i as nat)->0,
            output: if i == hops.len() - 1 {
                output
            } else {
                hop_input(route, source, (i + 1) as nat)->0
            },
        })
}

/// What planning along `route` gives: the plan, or the failure that tells
/// that some hop's input names no file.
pub open spec fn follows_route(
    route: Seq<FileType>,
    source: Seq<char>,
    output: Seq<char>,
    r: Result<Vec<Hop>, ConvertError>,
) -> bool {
    if nameable(route, source) {
        r is Ok && is_plan(r->Ok_0@, route, source, output)
    } else {
        r == Err::<Vec<Hop>, ConvertError>(
            ConvertError::Configuration(ConfigurationIssue::InputWithoutFileName),
        )
    }
}

/// What planning a request gives. An unknown endpoint is refused first. A
/// pair that a converter joins directly is one hop onto the output path,
/// whatever chains exist. Otherwise the plan follows a shortest chain of
/// registered converters, and fails where there is none.
pub open spec fn plan_result(
    from: FileType,
    source: Seq<char>,
    to: FileType,
    explicit: Option<Seq<char>>,
    edges: Set<(FileType, FileType)>,
    r: Result<Vec<Hop>, ConvertError>,
) -> bool {
    let output = resolved_output(source, to, explicit);
    if from == FileType::Unknown {
        r == Err::<Vec<Hop>, ConvertError>(
            ConvertError::Configuration(ConfigurationIssue::SourceTypeUnknown),
        )
    } else if to == FileType::Unknown {
        r == Err::<Vec<Hop>, ConvertError>(
            ConvertError::Configuration(ConfigurationIssue::TargetTypeUnknown),
        )
    } else if edges.contains((from, to)) {
        &&& r is Ok
        &&& r->Ok_0@.len() == 1
        &&& r->Ok_0@[0]@ == (HopView { from, to, input: source, output })
    } else if !reachable(edges, from, to) {
        r == Err::<Vec<Hop>, ConvertError>(ConvertError::NoConversionPath { from, to })
    } else {
        exists|route: Seq<FileType>| #[trigger]
            is_shortest_path(edges, route, from, to) && follows_route(route, source, output, r)
    }
}

/// Both formats are known, and neither a converter nor a chain of
/// converters leads from the first to the second.
pub open spec fn unlinked(from: FileType, to: FileType, edges: Set<(FileType, FileType)>) -> bool {
    &&& from != FileType::Unknown
    &&& to != FileType::Unknown
    &&& !edges.contains((from, to))
    &&& !reachable(edges, from, to)
}

/// What running hop `hop` through `registry` may return.
pub open spec fn hop_result<C: Converter>(
    registry: Map<(FileType, FileType), C>,
    hop: Hop,
    r: Result<(), ConvertError>,
) -> bool {
    direct_result(registry, hop.from, hop.to, hop.input@, hop.output@, r)
}

/// What running `hops` in order may return. Success means that every hop
/// succeeded. A failure is that of the first hop that failed: the hops
/// before it succeeded, and none after it was run.
pub open spec fn run_result<C: Converter>(
    registry: Map<(FileType, FileType), C>,
    hops: Seq<Hop>,
    r: Result<(), ConvertError>,
) -> bool {
    match r {
        Ok(_) => forall|k: int|
            0 <= k < hops.len() ==> hop_result(registry, #[trigger] hops[k], Ok(())),
        Err(_) => exists|k: int|
            {
                &&& 0 <= k < hops.len()
                &&& hop_result(registry, #[trigger] hops[k], r)
                &&& forall|j: int| 0 <= j < k ==> hop_result(registry, #[trigger] hops[j], Ok(()))
            },
    }
}

/// Every hop of a plan along a path through `edges` is one of those edges:
/// running the plan never lacks a converter.
pub proof fn lemma_plan_hops_are_edges(
    edges: Set<(FileType, FileType)>,
    hops: Seq<Hop>,
    route: Seq<FileType>,
    from: FileType,
    to: FileType,
    source: Seq<char>,
    output: Seq<char>,
)
    requires
        is_path(edges, route, from, to),
        is_plan(hops, route, source, output),
    ensures
        forall|i: int| 0 <= i < hops.len() ==> edges.contains(((#[trigger] hops[i]).from, hops[i].to)),
{
    assert forall|i: int| 0 <= i < hops.len() implies edges.contains(
        ((#[trigger] hops[i]).from, hops[i].to),
    ) by {
        assert(edges.contains((route[i], route[i + 1])));
        assert(hops[i]@.from == route[i] && hops[i]@.to == route[i + 1]);
    }
}

/// Every hop that planning a request gives is joined by a registered
/// converter.
pub proof fn lemma_planned_hops_are_edges(
    from: FileType,
    source: Seq<char>,
    to: FileType,
    explicit: Option<Seq<char>>,
    edges: Set<(FileType, FileType)>,
    hops: Vec<Hop>,
)
    requires
        plan_result(from, source, to, explicit, edges, Ok(hops)),
    ensures
        forall|i: int|
            0 <= i < hops@.len() ==> edges.contains(((#[trigger] hops@[i]).from, hops@[i].to)),
{
    let r = Ok::<Vec<Hop>, ConvertError>(hops);
    let output = resolved_output(source, to, explicit);
    if edges.contains((from, to)) {
        assert(hops@[0]@.from == from && hops@[0]@.to == to);
    } else {
        let route = choose|route: Seq<FileType>| #[trigger]
            is_shortest_path(edges, route, from, to) && follows_route(route, source, output, r);
        lemma_plan_hops_are_edges(edges, hops@, route, from, to, source, output);
    }
}

/// Lays out the hops that carry `source` along `route` to `output`.
pub fn plan_route(route: &Vec<FileType>, source: &String, output: &String) -> (r: Result<
    Vec<Hop>,
    ConvertError,
>)
    requires
        route@.len() >= 1,
    ensures
        follows_route(route@, source@, output@, r),
{
    let mut hops: Vec<Hop> = Vec::new();
    let mut current = source.clone();
    let mut i: usize = 0;
    while i < route.len() - 1
        invariant
            i + 1 <= route@.len(),
            hops@.len() == i,
            i + 1 < route@.len() ==> hop_input(route@, source@, i as nat) == Some(current@),
            forall|k: nat| k <= i && k + 1 < route@.len() ==> (#[trigger] hop_input(
                route@,
                source@,
                k,
            )) is Some,
            forall|k: int|
                0 <= k < i ==> (#[trigger] hops@[k])@ == (HopView {
                    from: route@[k],
                    to: route@[k + 1],
                    input: hop_input(route@, source@, k as nat)->0,
                    output: if k == route@.len() - 2 {
                        output@
                    } else {
                        hop_input(route@, source@, (k + 1) as nat)->0
                    },
                }),
        decreases route@.len() - i,
    {
        let from = route[i];
        let to = route[i + 1];
        let hop_output = if i + 2 == route.len() {
            output.clone()
        } else {
            match temp_path(&current, &to) {
                Some(path) => path,
                None => {
                    proof {
                        assert(hop_input(route@, source@, (i + 1) as nat) is None);
                    }
                    return Err(
                        ConvertError::Configuration(ConfigurationIssue::InputWithoutFileName),
                    );
                },
            }
        };
        let next = hop_output.clone();
        let ghost before = hops@;
        hops.push(Hop { from, to, input: current, output: hop_output });
        current = next;
        proof {
            assert forall|k: int| 0 <= k < i + 1 implies (#[trigger] hops@[k])@ == (HopView {
                from: route@[k],
                to: route@[k + 1],
                input: hop_input(route@, source@, k as nat)->0,
                output: if k == route@.len() - 2 {
                    output@
                } else {
                    hop_input(route@, source@, (k + 1) as nat)->0
                },
            }) by {
                if k < i {
                    assert(hops@[k] == before[k]);
                }
            }
        }
        i += 1;
    }
    Ok(hops)
}

/// Runs `hops` one after the other through `registry` and stops at the
/// first that fails.
pub fn execute<C: Converter>(registry: &ConverterRegistry<C>, hops: &Vec<Hop>) -> (r: Result<
    (),
    ConvertError,
>)
    requires
        registry.wf(),
    ensures
        run_result(registry@, hops@, r),
{
    let mut k: usize = 0;
    while k < hops.len()
        invariant
            k <= hops@.len(),
            registry.wf(),
            forall|j: int| 0 <= j < k ==> hop_result(registry@, #[trigger] hops@[j], Ok(())),
        decreases hops@.len() - k,
    {
        let hop = &hops[k];
        match registry.convert(&hop.from, &hop.to, &hop.input, &hop.output) {
            Ok(_) => {},
            Err(e) => {
                let r = Err(e);
                assert(hop_result(registry@, hops@[k as int], r));
                return r;
            },
        }
        k += 1;
    }
    Ok(())
}

/// A conversion request under construction, with the registry it will be
/// resolved against.
pub struct FileConvertBuilder<C: Converter> {
    from: (FileType, String),
    to: (FileType, Option<String>),
    registry: ConverterRegistry<C>,
}

impl<C: Converter> FileConvertBuilder<C> {
    /// The registry is valid.
    pub closed spec fn wf(&self) -> bool {
        self.registry.wf()
    }

    /// The declared source: its format and its path.
    pub closed spec fn source(&self) -> (FileType, Seq<char>) {
        (self.from.0, self.from.1@)
    }

    /// The declared target: its format and the output path, if one was
    /// named.
    pub closed spec fn target(&self) -> (FileType, Option<Seq<char>>) {
        (
            self.to.0,
            match self.to.1 {
                Some(path) => Some(path@),
                None => None,
            },
        )
    }

    /// The converters the request can use.
    pub closed spec fn converters(&self) -> Map<(FileType, FileType), C> {
        self.registry@
    }

    /// A request with both formats unknown, no paths and no converters.
    pub fn new() -> (builder: Self)
        ensures
            builder.wf(),
            builder.source() == (FileType::Unknown, Seq::<char>::empty()),
            builder.target() == (FileType::Unknown, None::<Seq<char>>),
            builder.converters() == Map::<(FileType, FileType), C>::empty(),
    {
        FileConvertBuilder {
            from: (FileType::Unknown, String::new()),
            to: (FileType::Unknown, None),
            registry: ConverterRegistry::new(),
        }
    }

    /// Declares the source.
    pub fn from_file(&mut self, file_type: FileType, file_location: String) -> (builder: &mut Self)
        ensures
            builder.source() == (file_type, file_location@),
            builder.target() == old(self).target(),
            builder.converters() == old(self).converters(),
            builder.wf() == old(self).wf(),
            *final(self) == *final(builder),
    {
        self.from = (file_type, file_location);
        self
    }

    /// Declares the target, with the output path or without.
    pub fn to_file(&mut self, file_type: FileType, file_location: Option<String>) -> (builder:
        &mut Self)
        ensures
            builder.target() == (
                file_type,
                match file_location {
                    Some(path) => Some(path@),
                    None => None,
                },
            ),
            builder.source() == old(self).source(),
            builder.converters() == old(self).converters(),
            builder.wf() == old(self).wf(),
            *final(self) == *final(builder),
    {
        self.to = (file_type, file_location);
        self
    }

    /// Adds a converter. It replaces one added before for the same pair.
    pub fn with_converter(&mut self, converter: C) -> (builder: &mut Self)
        requires
            old(self).wf(),
        ensures
            builder.wf(),
            builder.converters() == old(self).converters().insert(
                (converter.source(), converter.target()),
                converter,
            ),
            builder.source() == old(self).source(),
            builder.target() == old(self).target(),
            *final(self) == *final(builder),
    {
        self.registry.register(converter);
        self
    }

    /// Adds converters in the order given. Each replaces one added before
    /// for the same pair.
    pub fn with_converters(&mut self, converters: Vec<C>) -> (builder: &mut Self)
        requires
            old(self).wf(),
        ensures
            builder.wf(),
            builder.converters() == register_all(old(self).converters(), converters@),
            builder.source() == old(self).source(),
            builder.target() == old(self).target(),
            *final(self) == *final(builder),
    {
        let mut rest = converters;
        while rest.len() > 0
            invariant
                self.wf(),
                register_all(old(self).converters(), converters@) == register_all(
                    self.converters(),
                    rest@,
                ),
                self.source() == old(self).source(),
                self.target() == old(self).target(),
            decreases rest@.len(),
        {
            let ghost before = rest@;
            let converter = rest.remove(0);
            proof {
                assert(rest@ =~= before.drop_first());
            }
            self.registry.register(converter);
        }
        self
    }

    /// The hops by which the request is carried out, without running any.
    pub fn plan(&self) -> (r: Result<Vec<Hop>, ConvertError>)
        requires
            self.wf(),
        ensures
            plan_result(
                self.source().0,
                self.source().1,
                self.target().0,
                self.target().1,
                self.converters().dom(),
                r,
            ),
    {
        if self.from.0 == FileType::Unknown {
            return Err(ConvertError::Configuration(ConfigurationIssue::SourceTypeUnknown));
        }
        if self.to.0 == FileType::Unknown {
            return Err(ConvertError::Configuration(ConfigurationIssue::TargetTypeUnknown));
        }
        let output = match &self.to.1 {
            Some(path) => path.clone(),
            None => default_output(&self.from.1, &self.to.0),
        };
        if self.registry.can_convert(self.from.0, self.to.0) {
            let mut hops: Vec<Hop> = Vec::new();
            hops.push(
                Hop { from: self.from.0, to: self.to.0, input: self.from.1.clone(), output },
            );
            return Ok(hops);
        }
        match self.registry.find_conversion_path(self.from.0, self.to.0) {
            Some(route) => plan_route(&route, &self.from.1, &output),
            None => Err(ConvertError::NoConversionPath { from: self.from.0, to: self.to.0 }),
        }
    }

    /// Carries the request out: plans it, then runs the hops in order.
    /// Nothing is run where planning fails.
    pub fn convert(self) -> (r: Result<(), ConvertError>)
        requires
            self.wf(),
        ensures
            exists|p: Result<Vec<Hop>, ConvertError>|
                {
                    &&& #[trigger] plan_result(
                        self.source().0,
                        self.source().1,
                        self.target().0,
                        self.target().1,
                        self.converters().dom(),
                        p,
                    )
                    &&& match p {
                        Ok(hops) => run_result(self.converters(), hops@, r),
                        Err(e) => r == Err::<(), ConvertError>(e),
                    }
                },
            self.source().0 == FileType::Unknown <==> r == Err::<(), ConvertError>(
                ConvertError::Configuration(ConfigurationIssue::SourceTypeUnknown),
            ),
            self.source().0 != FileType::Unknown && self.target().0 == FileType::Unknown <==> r
                == Err::<(), ConvertError>(
                ConvertError::Configuration(ConfigurationIssue::TargetTypeUnknown),
            ),
            unlinked(self.source().0, self.target().0, self.converters().dom()) <==> r
                matches Err(ConvertError::NoConversionPath { .. }),
            unlinked(self.source().0, self.target().0, self.converters().dom()) ==> r == Err::<
                (),
                ConvertError,
            >(ConvertError::NoConversionPath { from: self.source().0, to: self.target().0 }),
            !(r matches Err(ConvertError::NoDirectConverter { .. })),
    {
        let planned = self.plan();
        match planned {
            Ok(hops) => {
                let r = execute(&self.registry, &hops);
                proof {
                    assert(planned == Ok::<Vec<Hop>, ConvertError>(hops));
                    lemma_planned_hops_are_edges(
                        self.source().0,
                        self.source().1,
                        self.target().0,
                        self.target().1,
                        self.converters().dom(),
                        hops,
                    );
                }
                r
            },
            Err(e) => {
                proof {
                    assert(planned == Err::<Vec<Hop>, ConvertError>(e));
                }
                Err(e)
            },
        }
    }
}

} // verus!
