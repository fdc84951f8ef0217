//! Names of the solving algorithms and how a name selects one.
use vstd::prelude::*;

verus! {

/// The solving algorithms.
#[derive(Clone, Copy, Debug, PartialEq, Eq, Structural)]
pub enum Algorithm {
    Lapjv,
    Hungarian,
    Lapmod,
    Lapjvsp,
    Subgradient,
    Auction,
    Dantzig,
    Sinkhorn,
    Ssp,
    CostScaling,
    Greedy,
}

/// The name under which each algorithm is selected.
pub open spec fn algorithm_name(a: Algorithm) -> Seq<char> {
    match a {
        Algorithm::Lapjv => "lapjv"@,
        Algorithm::Hungarian => "hungarian"@,
        Algorithm::Lapmod => "lapmod"@,
        Algorithm::Lapjvsp => "lapjvsp"@,
        Algorithm::Subgradient => "subgradient"@,
        Algorithm::Auction => "auction"@,
        Algorithm::Dantzig => "dantzig"@,
        Algorithm::Sinkhorn => "sinkhorn"@,
        Algorithm::Ssp => "ssp"@,
        Algorithm::CostScaling => "cost_scaling"@,
        Algorithm::Greedy => "greedy"@,
    }
}

/// The eleven solving algorithms, in documented order.
pub open spec fn spec_supported_names() -> Seq<Seq<char>> {
    seq![
        "lapjv"@, "hungarian"@, "lapmod"@, "lapjvsp"@, "subgradient"@, "auction"@,
        "dantzig"@, "sinkhorn"@, "ssp"@, "cost_scaling"@, "greedy"@,
    ]
}

/// The algorithms whose final duals are exact, in documented order.
pub open spec fn spec_dual_names() -> Seq<Seq<char>> {
    seq!["lapjv"@, "subgradient"@, "sinkhorn"@, "dantzig"@]
}

/// Names of every supported algorithm, in documented order.
pub fn supported_algorithms() -> (res: Vec<&'static str>)
    ensures
        res@.len() == spec_supported_names().len(),
        forall|i: int| 0 <= i < res@.len() ==> #[trigger] res@[i]@ == spec_supported_names()[i],
{
    let res = vec![
        "lapjv", "hungarian", "lapmod", "lapjvsp", "subgradient", "auction",
        "dantzig", "sinkhorn", "ssp", "cost_scaling", "greedy",
    ];
    res
}

/// Names of the algorithms that can report optimal duals.
pub fn dual_supported_algorithms() -> (res: Vec<&'static str>)
    ensures
        res@.len() == spec_dual_names().len(),
        forall|i: int| 0 <= i < res@.len() ==> #[trigger] res@[i]@ == spec_dual_names()[i],
{
    let res = vec!["lapjv", "subgradient", "sinkhorn", "dantzig"];
    res
}

/// String equality through owned copies, whose `==` compares contents.
fn same_text(a: &str, b: &str) -> (res: bool)
    ensures
        res == (a@ == b@),
{
    let x = a.to_owned();
    let y = b.to_owned();
    x == y
}

/// The algorithm selected by `name`, if it is one of the supported names.
pub fn parse_algorithm(name: &str) -> (res: Option<Algorithm>)
    ensures
        res matches Some(a) ==> algorithm_name(a) == name@,
        res is None ==> forall|a: Algorithm| #[trigger] algorithm_name(a) != name@,
{
    let names = supported_algorithms();
    let algorithms = [
        Algorithm::Lapjv,
        Algorithm::Hungarian,
        Algorithm::Lapmod,
        Algorithm::Lapjvsp,
        Algorithm::Subgradient,
        Algorithm::Auction,
        Algorithm::Dantzig,
        Algorithm::Sinkhorn,
        Algorithm::Ssp,
        Algorithm::CostScaling,
        Algorithm::Greedy,
    ];
    let mut k: usize = 0;
    while k < names.len()
        invariant
            names@.len() == 11,
            algorithms@.len() == 11,
            k <= 11,
            forall|i: int| 0 <= i < 11 ==> #[trigger] names@[i]@ == spec_supported_names()[i],
            forall|i: int| 0 <= i < 11 ==> algorithm_name(#[trigger] algorithms@[i]) == spec_supported_names()[i],
            forall|i: int| 0 <= i < k ==> spec_supported_names()[i] != name@,
        decreases 11 - k,
    {
        if same_text(names[k], name) {
            return Some(algorithms[k]);
        }
        k += 1;
    }
    proof {
        assert forall|a: Algorithm| #[trigger] algorithm_name(a) != name@ by {
            let i: int = match a {
                Algorithm::Lapjv => 0,
                Algorithm::Hungarian => 1,
                Algorithm::Lapmod => 2,
                Algorithm::Lapjvsp => 3,
                Algorithm::Subgradient => 4,
                Algorithm::Auction => 5,
                Algorithm::Dantzig => 6,
                Algorithm::Sinkhorn => 7,
                Algorithm::Ssp => 8,
                Algorithm::CostScaling => 9,
                Algorithm::Greedy => 10,
            };
            assert(algorithm_name(a) == spec_supported_names()[i]);
        }
    }
    None
}

/// Whether the algorithm reports optimal duals: exactly those named in
/// `dual_supported_algorithms`.
pub fn supports_duals(a: Algorithm) -> (res: bool)
    ensures
        res == (a == Algorithm::Lapjv || a == Algorithm::Subgradient || a == Algorithm::Sinkhorn
            || a == Algorithm::Dantzig),
        res ==> spec_dual_names().contains(algorithm_name(a)),
{
    proof {
        assert(spec_dual_names()[0] == "lapjv"@);
        assert(spec_dual_names()[1] == "subgradient"@);
        assert(spec_dual_names()[2] == "sinkhorn"@);
        assert(spec_dual_names()[3] == "dantzig"@);
    }
    match a {
        Algorithm::Lapjv | Algorithm::Subgradient | Algorithm::Sinkhorn | Algorithm::Dantzig => true,
        _ => false,
    }
}

/// Whether the algorithm solves a sparse matrix on its explicit entries
/// without densifying it.
pub fn is_sparse_aware(a: Algorithm) -> (res: bool)
    ensures
        res == (a == Algorithm::Lapmod || a == Algorithm::Lapjvsp),
{
    match a {
        Algorithm::Lapmod | Algorithm::Lapjvsp => true,
        _ => false,
    }
}

/// Why a worker count was refused.
#[derive(Clone, Copy, Debug, PartialEq, Eq, Structural)]
pub enum ThreadCountError {
    /// A pool needs at least one worker.
    Zero,
}

/// Checks a requested worker count: `None` (all cores) and any positive
/// count are accepted, zero is refused.
pub fn check_thread_count(n_threads: Option<usize>) -> (res: Result<Option<usize>, ThreadCountError>)
    ensures
        res == (if n_threads == Some(0usize) {
            Err::<Option<usize>, ThreadCountError>(ThreadCountError::Zero)
        } else {
            Ok(n_threads)
        }),
{
    match n_threads {
        Some(0) => Err(ThreadCountError::Zero),
        other => Ok(other),
    }
}

} // verus!
