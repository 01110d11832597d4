//! Scheduling of jobs by the data that they declare to read and write, and the storage of that data
//! in columns.

pub mod adaptive;
pub mod affinities;
pub mod attend;
pub mod bits;
pub mod bonds;
pub mod builder;
pub mod building;
pub mod chain;
pub mod choices;
pub mod clusters;
pub mod compiled;
pub mod conduct;
pub mod courses;
pub mod crews;
pub mod dag;
pub mod depend;
pub mod directions;
pub mod dynamic;
pub mod error;
pub mod exclusion;
pub mod fitting;
pub mod frontier;
pub mod graph;
pub mod groups;
pub mod job;
pub mod kernel;
pub mod keys;
pub mod layout;
pub mod lock;
pub mod locking;
pub mod measures;
pub mod memory;
pub mod multex;
pub mod normalize;
pub mod order;
pub mod orient;
pub mod pages;
pub mod paging;
pub mod places;
pub mod plan;
pub mod progress;
pub mod query;
pub mod ready;
pub mod relations;
pub mod rosters;
pub mod rounds;
pub mod runner;
pub mod scheduler;
pub mod schema;
pub mod sharing;
pub mod simple_memory;
pub mod singles;
pub mod slots;
pub mod stalls;
pub mod steps;
pub mod store;
pub mod supply;
pub mod table;
pub mod template;
pub mod turns;
pub mod utility;
pub mod variant_runs;
pub mod variants;
pub mod waits;
pub mod word;
pub mod work;
pub mod worker_runs;
