//! What is asked of the Docker daemon.
use bollard::query_parameters::{
    InspectContainerOptions, InspectContainerOptionsBuilder, ListContainersOptions,
    ListContainersOptionsBuilder, StatsOptions, StatsOptionsBuilder,
};
use vstd::prelude::*;

verus! {

// ---------------------------------------------------------------------------------------------
// The list of containers
// ---------------------------------------------------------------------------------------------

/// `ListContainersOptions`: what the request for the list of containers asks for.
#[verifier::external_type_specification]
pub struct ExListContainersOptions(ListContainersOptions);

/// `ListContainersOptionsBuilder`: the options as far as they are set.
#[verifier::external_type_specification]
#[verifier::external_body]
pub struct ExListContainersOptionsBuilder(ListContainersOptionsBuilder);

/// The options that a builder holds.
pub uninterp spec fn pending_list_options(
    builder: ListContainersOptionsBuilder,
) -> ListContainersOptions;

/// `ListContainersOptionsBuilder::default`: a builder for the running containers, all of them and
/// without their sizes.
pub assume_specification[ <ListContainersOptionsBuilder as Default>::default ]() -> (builder:
    ListContainersOptionsBuilder)
    ensures
        pending_list_options(builder) == (ListContainersOptions {
            all: false,
            limit: None,
            size: false,
            filters: None,
        }),
;

/// `ListContainersOptionsBuilder::all`: sets whether containers that do not run are listed too,
/// and nothing else.
pub assume_specification[ ListContainersOptionsBuilder::all ](
    builder: ListContainersOptionsBuilder,
    all: bool,
) -> (result: ListContainersOptionsBuilder)
    ensures
        pending_list_options(result) == (ListContainersOptions {
            all,
            ..pending_list_options(builder)
        }),
;

/// `ListContainersOptionsBuilder::build`: the options that the builder holds.
pub assume_specification[ ListContainersOptionsBuilder::build ](
    builder: ListContainersOptionsBuilder,
) -> (options: ListContainersOptions)
    ensures
        options == pending_list_options(builder),
;

/// The request for the list of containers: of those that run, or of all.
pub fn list_options(running_only: bool) -> (options: ListContainersOptions)
    ensures
        options == (ListContainersOptions {
            all: !running_only,
            limit: None,
            size: false,
            filters: None,
        }),
{
    ListContainersOptionsBuilder::default().all(!running_only).build()
}

// ---------------------------------------------------------------------------------------------
// The inspection of a container
// ---------------------------------------------------------------------------------------------

/// `InspectContainerOptions`: what the request for an inspection asks for.
#[verifier::external_type_specification]
pub struct ExInspectContainerOptions(InspectContainerOptions);

/// `InspectContainerOptionsBuilder`: the options as far as they are set.
#[verifier::external_type_specification]
#[verifier::external_body]
pub struct ExInspectContainerOptionsBuilder(InspectContainerOptionsBuilder);

/// The options that a builder holds.
pub uninterp spec fn pending_inspect_options(
    builder: InspectContainerOptionsBuilder,
) -> InspectContainerOptions;

/// `InspectContainerOptionsBuilder::default`: a builder that does not ask for sizes.
pub assume_specification[ <InspectContainerOptionsBuilder as Default>::default ]() -> (builder:
    InspectContainerOptionsBuilder)
    ensures
        pending_inspect_options(builder) == (InspectContainerOptions { size: false }),
;

/// `InspectContainerOptionsBuilder::size`: sets whether sizes are asked for.
pub assume_specification[ InspectContainerOptionsBuilder::size ](
    builder: InspectContainerOptionsBuilder,
    size: bool,
) -> (result: InspectContainerOptionsBuilder)
    ensures
        pending_inspect_options(result) == (InspectContainerOptions {
            size,
            ..pending_inspect_options(builder)
        }),
;

/// `InspectContainerOptionsBuilder::build`: the options that the builder holds.
pub assume_specification[ InspectContainerOptionsBuilder::build ](
    builder: InspectContainerOptionsBuilder,
) -> (options: InspectContainerOptions)
    ensures
        options == pending_inspect_options(builder),
;

/// The request for an inspection, without the sizes of the container.
pub fn inspect_options() -> (options: InspectContainerOptions)
    ensures
        options == (InspectContainerOptions { size: false }),
{
    InspectContainerOptionsBuilder::default().size(false).build()
}

// ---------------------------------------------------------------------------------------------
// Measurements
// ---------------------------------------------------------------------------------------------

/// `StatsOptions`: what the request for measurements asks for.
#[verifier::external_type_specification]
pub struct ExStatsOptions(StatsOptions);

/// `StatsOptionsBuilder`: the options as far as they are set.
#[verifier::external_type_specification]
#[verifier::external_body]
pub struct ExStatsOptionsBuilder(StatsOptionsBuilder);

/// The options that a builder holds.
pub uninterp spec fn pending_stats_options(builder: StatsOptionsBuilder) -> StatsOptions;

/// `StatsOptionsBuilder::default`: a builder for a stream of measurements.
pub assume_specification[ <StatsOptionsBuilder as Default>::default ]() -> (builder:
    StatsOptionsBuilder)
    ensures
        pending_stats_options(builder) == (StatsOptions { stream: true, one_shot: false }),
;

/// `StatsOptionsBuilder::stream`: sets whether the measurements go on, and nothing else.
pub assume_specification[ StatsOptionsBuilder::stream ](
    builder: StatsOptionsBuilder,
    stream: bool,
) -> (result: StatsOptionsBuilder)
    ensures
        pending_stats_options(result) == (StatsOptions {
            stream,
            ..pending_stats_options(builder)
        }),
;

/// `StatsOptionsBuilder::build`: the options that the builder holds.
pub assume_specification[ StatsOptionsBuilder::build ](builder: StatsOptionsBuilder) -> (options:
    StatsOptions)
    ensures
        options == pending_stats_options(builder),
;

/// The request for measurements: for a stream of them, or for one.
pub fn stats_options(stream: bool) -> (options: StatsOptions)
    ensures
        options == (StatsOptions { stream, one_shot: false }),
{
    StatsOptionsBuilder::default().stream(stream).build()
}

} // verus!
