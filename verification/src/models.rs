use vstd::prelude::*;

verus! {

/// One process as observed in a sample. Percentages are in hundredths of a
/// percent (`8550` is 85.50%); a process may use more than one core, so its
/// CPU share can pass 100%.
#[derive(Clone, Debug, PartialEq, Eq)]
pub struct ProcessSnapshot {
    pub pid: u32,
    pub name: String,
    pub cpu_percent_x100: i64,
    pub memory_percent_x100: i64,
    pub status: String,
    pub nice: Option<i32>,
}

impl ProcessSnapshot {
    /// A field-by-field copy.
    pub fn duplicate(&self) -> (r: Self)
        ensures
            r == *self,
    {
        ProcessSnapshot {
            pid: self.pid,
            name: self.name.clone(),
            cpu_percent_x100: self.cpu_percent_x100,
            memory_percent_x100: self.memory_percent_x100,
            status: self.status.clone(),
            nice: self.nice,
        }
    }
}

/// The whole machine as observed in a sample. Percentages and load averages
/// are in hundredths; `captured_at` is seconds since the Unix epoch, in decimal.
#[derive(Clone, Debug, PartialEq, Eq)]
pub struct SystemSnapshot {
    pub cpu_percent_x100: i64,
    pub memory_percent_x100: i64,
    pub load_average_x100: Option<[i64; 3]>,
    pub process_count: usize,
    pub captured_at: String,
}

/// What became of one priority change.
#[derive(Clone, Debug, PartialEq, Eq)]
pub struct ActionResult {
    pub pid: u32,
    pub name: String,
    pub changed: bool,
    pub detail: String,
}

/// One round of the watcher: the sample, who qualified, what was done.
#[derive(Clone, Debug, PartialEq, Eq)]
pub struct WatchEvent {
    pub system: SystemSnapshot,
    pub candidates: Vec<ProcessSnapshot>,
    pub actions: Vec<ActionResult>,
}

/// A niceness change that the controller has decided on and the operating
/// system is to carry out: set `pid` (shown as `name`) to `target_nice`.
#[derive(Clone, Debug, PartialEq, Eq)]
pub struct PriorityChange {
    pub pid: u32,
    pub name: String,
    pub target_nice: i32,
}

/// How the watcher decides. Percentages are in hundredths of a percent
/// (`8500` is 85.00%), durations in milliseconds.
#[derive(Clone, Copy, Debug, PartialEq, Eq, Structural)]
pub struct Policy {
    pub interval_ms: i64,
    pub system_threshold_x100: i64,
    pub process_threshold_x100: i64,
    pub background_nice: i32,
    pub cooldown_ms: i64,
    pub max_actions_per_cycle: usize,
}

/// The first rule a policy breaks, with its message, or `None` for a valid policy.
pub open spec fn policy_error(p: Policy) -> Option<Seq<char>> {
    if p.interval_ms <= 0 {
        Some("interval must be positive"@)
    } else if !(0 <= p.system_threshold_x100 <= 10000) {
        Some("system threshold must be between 0 and 100"@)
    } else if !(0 <= p.process_threshold_x100 <= 10000) {
        Some("process threshold must be between 0 and 100"@)
    } else if !(1 <= p.background_nice <= 19) {
        Some("background nice must be between 1 and 19"@)
    } else if p.cooldown_ms < 0 {
        Some("cooldown cannot be negative"@)
    } else if p.max_actions_per_cycle == 0 {
        Some("max actions must be positive"@)
    } else {
        None
    }
}

impl Policy {
    pub open spec fn valid(self) -> bool {
        policy_error(self) is None
    }

    /// Accepts the policy, or names the first rule it breaks.
    pub fn validate(&self) -> (r: Result<(), String>)
        ensures
            match r {
                Ok(()) => policy_error(*self) is None,
                Err(e) => policy_error(*self) == Some(e@),
            },
    {
        if self.interval_ms <= 0 {
            return Err("interval must be positive".to_string());
        }
        if !(0 <= self.system_threshold_x100 && self.system_threshold_x100 <= 10000) {
            return Err("system threshold must be between 0 and 100".to_string());
        }
        if !(0 <= self.process_threshold_x100 && self.process_threshold_x100 <= 10000) {
            return Err("process threshold must be between 0 and 100".to_string());
        }
        if !(1 <= self.background_nice && self.background_nice <= 19) {
            return Err("background nice must be between 1 and 19".to_string());
        }
        if self.cooldown_ms < 0 {
            return Err("cooldown cannot be negative".to_string());
        }
        if self.max_actions_per_cycle == 0 {
            return Err("max actions must be positive".to_string());
        }
        Ok(())
    }
}

impl Default for Policy {
    /// Two-second sampling, 85% system and 35% process thresholds,
    /// niceness 10, thirty-second cooldown, four actions per cycle.
    fn default() -> (p: Self)
        ensures
            p.valid(),
            p == (Policy {
                interval_ms: 2000,
                system_threshold_x100: 8500,
                process_threshold_x100: 3500,
                background_nice: 10,
                cooldown_ms: 30000,
                max_actions_per_cycle: 4,
            }),
    {
        Policy {
            interval_ms: 2000,
            system_threshold_x100: 8500,
            process_threshold_x100: 3500,
            background_nice: 10,
            cooldown_ms: 30000,
            max_actions_per_cycle: 4,
        }
    }
}

} // verus!
