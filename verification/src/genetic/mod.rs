//! The evolutionary search: labelings, seed heuristics, populations, selection,
//! recombination and the generation loop.

pub mod chromosome;
pub mod construction;
pub mod crossover;
pub mod evolution;
pub mod heuristics;
pub mod population;
mod rounds;
pub mod selection;

pub use chromosome::Chromosome;
pub use crossover::{crossover_population, Crossover, SinglePoint};
pub use evolution::{run, search, Progress};
pub use heuristics::{h1, h1_with, h2, h3, h4, h5, Heuristic};
pub use population::{Population, PopulationError};
pub use selection::{select_population, tournament_winner, KTournament, Selection};
