//! Tunables of the generator. Every length is in KiCad internal units.

use vstd::prelude::*;
use crate::units::{
    snap_to, snap_up_to, spec_snap_to, spec_snap_up_to, spec_steps, steps, summable, Iu,
};

verus! {

/// Page format of the generated sheets.
#[derive(Clone, Copy, Debug, PartialEq, Eq, Structural)]
pub enum Paper {
    /// The smallest format that the content fits.
    Auto,
    A4,
    A3,
    A2,
}

impl Default for Paper {
    fn default() -> (p: Paper)
        ensures
            p == Paper::Auto,
    {
        Paper::Auto
    }
}

impl Paper {
    /// Width and height in landscape; `Auto` stands for the smallest format.
    pub open spec fn spec_size(self) -> (Iu, Iu) {
        match self {
            Paper::Auto => (2970000, 2100000),
            Paper::A4 => (2970000, 2100000),
            Paper::A3 => (4200000, 2970000),
            Paper::A2 => (5940000, 4200000),
        }
    }

    pub fn size(self) -> (r: (Iu, Iu))
        ensures
            r == self.spec_size(),
    {
        match self {
            Paper::Auto => (2970000, 2100000),
            Paper::A4 => (2970000, 2100000),
            Paper::A3 => (4200000, 2970000),
            Paper::A2 => (5940000, 4200000),
        }
    }

    pub open spec fn spec_kicad_name(self) -> Seq<char> {
        match self {
            Paper::Auto => "A4"@,
            Paper::A4 => "A4"@,
            Paper::A3 => "A3"@,
            Paper::A2 => "A2"@,
        }
    }

    /// The name that KiCad gives the format.
    pub fn kicad_name(self) -> (r: &'static str)
        ensures
            r@ == self.spec_kicad_name(),
    {
        match self {
            Paper::Auto => "A4",
            Paper::A4 => "A4",
            Paper::A3 => "A3",
            Paper::A2 => "A2",
        }
    }
}

/// Generator configuration.
#[derive(Debug)]
pub struct SchConfig {
    /// Snap grid.
    pub grid_mm: Iu,
    /// Gap between the columns of the main flow.
    pub col_gap_mm: Iu,
    /// Vertical gap between groups stacked in one column.
    pub row_gap_mm: Iu,
    /// Gap between an anchor and its satellites.
    pub satellite_gap_mm: Iu,
    /// Pitch between satellites of one row.
    pub satellite_pitch_mm: Iu,
    /// Gap between an anchor and its decoupling and pull rows.
    pub role_row_gap_mm: Iu,
    /// Shortest signal stub.
    pub stub_mm: Iu,
    /// Shortest label stub, in grid steps.
    pub label_stub_min_grid_steps: u32,
    /// Gap under a body before its value, in grid steps.
    pub value_gap_grid_steps: u32,
    /// Gap over a body before its reference, in grid steps.
    pub ref_gap_grid_steps: u32,
    /// Shortest straight run out of a pin, in grid steps.
    pub min_pin_exit_steps: usize,
    /// Stub between a power pin and its symbol.
    pub power_stub_mm: Iu,
    /// Widest hole in an aligned row of power symbols.
    pub power_align_max_dx_mm: Iu,
    /// Tallest band of power symbols that is aligned onto one row.
    pub power_align_max_dy_mm: Iu,
    /// Align power symbols of one potential whatever their distance.
    pub align_power_by_potential: bool,
    /// Shortest horizontal elbow that carries a label.
    pub label_elbow_mm: Iu,
    /// Gap between a crystal and its anchor.
    pub crystal_gap_mm: Iu,
    /// Reach of a direct wire.
    pub direct_wire_max_mm: Iu,
    /// Longest wire that is still credible.
    pub wire_length_guard_mm: Iu,
    /// Reach within which an orientation counts as routable.
    pub orient_probe_reach_mm: Iu,
    /// Cost of crossing a wire of another net.
    pub crossing_penalty_mm: Iu,
    /// Cost of a bend.
    pub bend_penalty_mm: Iu,
    /// Clearance between parallel wires of two nets, in grid steps.
    pub min_net_spacing_steps: usize,
    /// Keep one label on a two-endpoint net and wire the other end to it.
    pub dedup_signal_labels: bool,
    /// Pull sibling labels onto one column.
    pub align_sibling_ports: bool,
    /// Components with more visible pins than this are hubs.
    pub hub_pin_count_threshold: usize,
    /// Components with more visible pins may break an analog wire silently.
    pub analog_break_pin_count: usize,
    /// Clearance around a component.
    pub component_pad_mm: Iu,
    pub margin_left_mm: Iu,
    pub margin_top_mm: Iu,
    /// Distance of the port columns from the content.
    pub port_column_mm: Iu,
    /// Pitch of the ports in a port column.
    pub port_pitch_mm: Iu,
    pub sheet_block_min_width_mm: Iu,
    pub sheet_block_gap_x_mm: Iu,
    pub sheet_block_gap_y_mm: Iu,
    /// Gap between the content and the blocks of the child sheets.
    pub sheet_region_top_gap_mm: Iu,
    pub paper: Paper,
    /// Modules with fewer parts are drawn on the sheet of their parent.
    pub sheet_min_parts: usize,
    /// Draw modules of passives alone on the sheet of their parent.
    pub inline_passive_only_modules: bool,
    /// Modules with at most this many major parts may be drawn inline.
    pub inline_max_major_parts: usize,
    /// Sheets with more parts are reported.
    pub max_parts_per_sheet: usize,
    /// Capacitors from this value up are bulk capacitors, in picofarads.
    pub bulk_capacitance_pf: u64,
    /// A sheet with a component of this many pins has a utility band.
    pub input_chain_min_pins: usize,
    /// Move decoupling and flags into a utility band.
    pub relegate_utility: bool,
    pub utility_gap_mm: Iu,
    pub utility_pitch_mm: Iu,
    /// Clearance between a zone outline and its content.
    pub zone_margin_mm: Iu,
    /// Gap between two zone outlines.
    pub zone_gap_mm: Iu,
    /// Grid of the outer edges of the zones; zero or less leaves them free.
    pub zone_snap_mm: Iu,
}

/// The usual configuration.
pub open spec fn usual_config() -> SchConfig {
    SchConfig {
        grid_mm: 12700,
        col_gap_mm: 190500,
        row_gap_mm: 152400,
        satellite_gap_mm: 76200,
        satellite_pitch_mm: 114300,
        role_row_gap_mm: 190500,
        stub_mm: 50800,
        label_stub_min_grid_steps: 4,
        value_gap_grid_steps: 1,
        ref_gap_grid_steps: 1,
        min_pin_exit_steps: 2,
        power_stub_mm: 25400,
        power_align_max_dx_mm: 254000,
        power_align_max_dy_mm: 76200,
        align_power_by_potential: true,
        label_elbow_mm: 25400,
        crystal_gap_mm: 88900,
        direct_wire_max_mm: 508000,
        wire_length_guard_mm: 10000000,
        orient_probe_reach_mm: 508000,
        crossing_penalty_mm: 200000,
        bend_penalty_mm: 50800,
        min_net_spacing_steps: 2,
        dedup_signal_labels: true,
        align_sibling_ports: true,
        hub_pin_count_threshold: 10,
        analog_break_pin_count: 8,
        component_pad_mm: 12700,
        margin_left_mm: 254000,
        margin_top_mm: 228600,
        port_column_mm: 203200,
        port_pitch_mm: 76200,
        sheet_block_min_width_mm: 304800,
        sheet_block_gap_x_mm: 444500,
        sheet_block_gap_y_mm: 177800,
        sheet_region_top_gap_mm: 203200,
        paper: Paper::Auto,
        sheet_min_parts: 4,
        inline_passive_only_modules: true,
        inline_max_major_parts: 1,
        max_parts_per_sheet: 40,
        bulk_capacitance_pf: 10000000,
        input_chain_min_pins: 3,
        relegate_utility: true,
        utility_gap_mm: 127000,
        utility_pitch_mm: 127000,
        zone_margin_mm: 38100,
        zone_gap_mm: 0,
        zone_snap_mm: 12700,
    }
}

impl Default for SchConfig {
    fn default() -> (c: SchConfig)
        ensures
            c == usual_config(),
            c.wf(),
    {
        SchConfig {
            grid_mm: 12700,
            col_gap_mm: 190500,
            row_gap_mm: 152400,
            satellite_gap_mm: 76200,
            satellite_pitch_mm: 114300,
            role_row_gap_mm: 190500,
            stub_mm: 50800,
            label_stub_min_grid_steps: 4,
            value_gap_grid_steps: 1,
            ref_gap_grid_steps: 1,
            min_pin_exit_steps: 2,
            power_stub_mm: 25400,
            power_align_max_dx_mm: 254000,
            power_align_max_dy_mm: 76200,
            align_power_by_potential: true,
            label_elbow_mm: 25400,
            crystal_gap_mm: 88900,
            direct_wire_max_mm: 508000,
            wire_length_guard_mm: 10000000,
            orient_probe_reach_mm: 508000,
            crossing_penalty_mm: 200000,
            bend_penalty_mm: 50800,
            min_net_spacing_steps: 2,
            dedup_signal_labels: true,
            align_sibling_ports: true,
            hub_pin_count_threshold: 10,
            analog_break_pin_count: 8,
            component_pad_mm: 12700,
            margin_left_mm: 254000,
            margin_top_mm: 228600,
            port_column_mm: 203200,
            port_pitch_mm: 76200,
            sheet_block_min_width_mm: 304800,
            sheet_block_gap_x_mm: 444500,
            sheet_block_gap_y_mm: 177800,
            sheet_region_top_gap_mm: 203200,
            paper: Paper::Auto,
            sheet_min_parts: 4,
            inline_passive_only_modules: true,
            inline_max_major_parts: 1,
            max_parts_per_sheet: 40,
            bulk_capacitance_pf: 10000000,
            input_chain_min_pins: 3,
            relegate_utility: true,
            utility_gap_mm: 127000,
            utility_pitch_mm: 127000,
            zone_margin_mm: 38100,
            zone_gap_mm: 0,
            zone_snap_mm: 12700,
        }
    }
}

impl SchConfig {
    /// The grid has a positive step.
    pub open spec fn wf(&self) -> bool {
        self.grid_mm > 0
    }

    pub open spec fn spec_snap(&self, v: int) -> Iu {
        spec_snap_to(v, self.grid_mm as int)
    }

    pub open spec fn spec_snap_up(&self, v: int) -> Iu {
        spec_snap_up_to(v, self.grid_mm as int)
    }

    /// The grid point nearest to `v`, halves away from zero.
    pub fn snap(&self, v: i64) -> (r: Iu)
        requires
            self.wf(),
            summable(v as int),
        ensures
            r == self.spec_snap(v as int),
    {
        snap_to(v, self.grid_mm)
    }

    /// The first grid point at or above `v`.
    pub fn snap_up(&self, v: i64) -> (r: Iu)
        requires
            self.wf(),
            summable(v as int),
        ensures
            r == self.spec_snap_up(v as int),
    {
        snap_up_to(v, self.grid_mm)
    }

    pub open spec fn spec_min_pin_exit(&self) -> Iu {
        spec_steps(self.min_pin_exit_steps as int, self.grid_mm as int)
    }

    /// Shortest straight run out of a pin.
    pub fn min_pin_exit_mm(&self) -> (r: Iu)
        ensures
            r == self.spec_min_pin_exit(),
    {
        steps(self.min_pin_exit_steps, self.grid_mm)
    }

    pub open spec fn spec_min_net_spacing(&self) -> Iu {
        spec_steps(self.min_net_spacing_steps as int, self.grid_mm as int)
    }

    /// Clearance between parallel wires of two nets.
    pub fn min_net_spacing_mm(&self) -> (r: Iu)
        ensures
            r == self.spec_min_net_spacing(),
    {
        steps(self.min_net_spacing_steps, self.grid_mm)
    }
}

} // verus!
