//! One decoded report.
use vstd::prelude::*;
use crate::lexeme::{digit_run, float_len};

verus! {

/// A temperature in degrees Celsius, kept as the number's text exactly as the
/// report wrote it (`38.5`, `39`, `-1e1`). Every such text is one that
/// `str::parse::<f32>` accepts.
#[derive(Clone, Debug)]
pub struct Temperature {
    pub literal: String,
}

impl Temperature {
    /// The whole text is one reading, and nothing more.
    pub open spec fn wf(&self) -> bool {
        float_len(self.literal@) == Some(self.literal@.len())
    }
}

/// One report: memory, swap, the four CPU cores, the memory controller and
/// GPU frequencies and six temperature sensors.
#[derive(Clone, Debug)]
pub struct Tegrastats {
    pub ram_used: u32,
    pub ram_total: u32,
    pub lfb_blocks: u32,
    pub lfb_size: u32,
    pub swap_used: u32,
    pub swap_total: u32,
    pub swap_cached: u32,
    pub cpu0_load: u32,
    pub cpu0_freq: u32,
    pub cpu1_load: u32,
    pub cpu1_freq: u32,
    pub cpu2_load: u32,
    pub cpu2_freq: u32,
    pub cpu3_load: u32,
    pub cpu3_freq: u32,
    pub emc_freq: u32,
    pub gr3d_freq: u32,
    pub pll_temp: Temperature,
    pub cpu_temp: Temperature,
    pub pmic_temp: Temperature,
    pub gpu_temp: Temperature,
    pub ao_temp: Temperature,
    pub thermal_temp: Temperature,
}

/// What a report holds: its counters and its temperature texts, each in
/// the order the report writes them.
pub struct SnapshotView {
    pub counts: Seq<u32>,
    pub temps: Seq<Seq<char>>,
}

impl View for Tegrastats {
    type V = SnapshotView;

    open spec fn view(&self) -> SnapshotView {
        SnapshotView { counts: self.counts(), temps: self.temps() }
    }
}

/// The all-zero report.
pub open spec fn zero_view() -> SnapshotView {
    SnapshotView {
        counts: Seq::new(17, |i: int| 0u32),
        temps: Seq::new(6, |i: int| zero_literal()),
    }
}

impl Tegrastats {
    /// The counters, in the order the report writes them.
    pub open spec fn counts(&self) -> Seq<u32> {
        seq![
            self.ram_used, self.ram_total, self.lfb_blocks, self.lfb_size,
            self.swap_used, self.swap_total, self.swap_cached,
            self.cpu0_load, self.cpu0_freq, self.cpu1_load, self.cpu1_freq,
            self.cpu2_load, self.cpu2_freq, self.cpu3_load, self.cpu3_freq,
            self.emc_freq, self.gr3d_freq,
        ]
    }

    /// The temperature texts, in the order the report writes them.
    pub open spec fn temps(&self) -> Seq<Seq<char>> {
        seq![
            self.pll_temp.literal@, self.cpu_temp.literal@, self.pmic_temp.literal@,
            self.gpu_temp.literal@, self.ao_temp.literal@, self.thermal_temp.literal@,
        ]
    }

    pub open spec fn wf(&self) -> bool {
        &&& self.pll_temp.wf()
        &&& self.cpu_temp.wf()
        &&& self.pmic_temp.wf()
        &&& self.gpu_temp.wf()
        &&& self.ao_temp.wf()
        &&& self.thermal_temp.wf()
    }
}

/// The reading `0`.
pub open spec fn zero_literal() -> Seq<char> {
    seq!['0']
}

impl Temperature {
    pub fn zero() -> (r: Temperature)
        ensures
            r.literal@ == zero_literal(),
            r.wf(),
    {
        proof {
            reveal_strlit("0");
        }
        let r = Temperature { literal: "0".to_owned() };
        proof {
            let s = r.literal@;
            assert(s =~= zero_literal());
            assert(s.skip(0) =~= s);
            assert(digit_run(s.skip(1)) == 0);
            assert(digit_run(s) == 1);
        }
        r
    }
}

impl Default for Tegrastats {
    /// The all-zero report, held before any line has decoded.
    fn default() -> (r: Tegrastats)
        ensures
            r@ == zero_view(),
            r.wf(),
    {
        let r = Tegrastats {
            ram_used: 0,
            ram_total: 0,
            lfb_blocks: 0,
            lfb_size: 0,
            swap_used: 0,
            swap_total: 0,
            swap_cached: 0,
            cpu0_load: 0,
            cpu0_freq: 0,
            cpu1_load: 0,
            cpu1_freq: 0,
            cpu2_load: 0,
            cpu2_freq: 0,
            cpu3_load: 0,
            cpu3_freq: 0,
            emc_freq: 0,
            gr3d_freq: 0,
            pll_temp: Temperature::zero(),
            cpu_temp: Temperature::zero(),
            pmic_temp: Temperature::zero(),
            gpu_temp: Temperature::zero(),
            ao_temp: Temperature::zero(),
            thermal_temp: Temperature::zero(),
        };
        assert(r.counts() =~= zero_view().counts);
        assert(r.temps() =~= zero_view().temps);
        r
    }
}

} // verus!
