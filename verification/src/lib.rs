//! fastlap: linear assignment problem support library.
//!
//! The combinatorial core of the solvers — assignment bookkeeping, matrix
//! shape validation, the bottleneck (LBAP) search with its Hopcroft-Karp
//! matching, the greedy assignment, Murty's subproblem partition, the
//! augmenting-path bookkeeping of the shortest-path solvers and of the
//! successive-shortest-path network, the matching updates of the auction
//! and cost-scaling methods, the spanning-tree basis of the simplex solver
//! with its pivots and the star/prime marking machine of the Kuhn-Munkres
//! method — lives here with its contracts.
pub mod algorithms;
pub mod assignment;
pub mod matching;
pub mod bottleneck;
pub mod greedy;
pub mod murty;
pub mod simplex;
pub mod matrix;
pub mod types;
pub mod basis;
pub mod augment;
pub mod munkres;
pub mod network;
