//! Run configuration: which file holds the drone parameters, where the
//! result goes, and which physical cost the tour should minimize.

use vstd::prelude::*;

verus! {

/// Defines the system parameter to be optimized.
#[derive(Debug, Clone, Copy, PartialEq, Eq, Structural)]
pub enum Optimize {
    /// Optimize by intuitive flight (m).
    Intuitive,
    /// Optimize by flying time (s).
    Time,
    /// Optimization of battery capacity usage (A/h).
    Battery,
    /// Optimize by energy consumption (kJ).
    Energy,
}

/// A validated run configuration.
#[derive(Debug)]
pub struct Config {
    pub params_file: String,
    pub out_filename: Option<String>,
    pub out_as_json: bool,
    pub optimize: Optimize,
}

impl Config {
    /// Assemble a configuration from the values the argument parser hands
    /// over: the parameters file, the optional output file, the JSON switch,
    /// and the presence of each optimize switch. The first switch present —
    /// in the order intuitive, time, battery, energy — picks the cost;
    /// with none present there is no configuration.
    pub fn make_config(
        params_file: String,
        out_filename: Option<String>,
        out_as_json: bool,
        intuitive: bool,
        time: bool,
        battery: bool,
        energy: bool,
    ) -> (r: Option<Config>)
        ensures
            r is Some <==> (intuitive || time || battery || energy),
            r matches Some(c) ==> ({
                &&& c.params_file == params_file
                &&& c.out_filename == out_filename
                &&& c.out_as_json == out_as_json
                &&& c.optimize == (if intuitive {
                    Optimize::Intuitive
                } else if time {
                    Optimize::Time
                } else if battery {
                    Optimize::Battery
                } else {
                    Optimize::Energy
                })
            }),
    {
        let optimize = if intuitive {
            Optimize::Intuitive
        } else if time {
            Optimize::Time
        } else if battery {
            Optimize::Battery
        } else if energy {
            Optimize::Energy
        } else {
            return None;
        };
        Some(Config { params_file, out_filename, out_as_json, optimize })
    }
}

} // verus!
