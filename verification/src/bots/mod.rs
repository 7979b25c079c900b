pub mod agent_board;
pub mod arena;
pub mod agent_eval;
pub mod agent_protocol;
pub mod agent_search;
pub mod agent_zobrist;
pub mod agent_tt;
pub mod cordyceps_board;
pub mod finder_protocol;
pub mod policy_protocol;
pub mod policy_search;
pub mod sampler;
pub mod cordyceps_eval;
pub mod cordyceps_movegen;
pub mod cordyceps_timeman;
pub mod tournament;
pub mod trainer;
pub mod tuner;
pub mod zoo_rng;
pub mod zoo_search;
pub mod zoo_styles;
pub mod zoo_keys;
pub mod zoo_protocol;
pub mod zoo_utils;
