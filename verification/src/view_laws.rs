//! That the models of the values hold what their fields hold, item by item and in order.

use vstd::prelude::*;

use crate::agent::Install;
use crate::cap::CapResult;
use crate::cta::CtaBlock;
use crate::describe::TimingText;
use crate::displayid::DisplayIdBlock;
use crate::edid::EdidInfo;
use crate::registry::{CrossbarState, Display, Framebuffer, PipeMapping};
use crate::status::{DisplaySummary, StatusReport};

verus! {

/// The model of an EDID holds each of its fields.
pub proof fn law_edid_info_view(v: EdidInfo, i: int)
    ensures
        v@.id == v.id@,
        v@.manufacturer == v.manufacturer@,
        v@.product_code == v.product_code,
        v@.serial == v.serial,
        v@.week == v.week,
        v@.year == v.year,
        v@.version == v.version@,
        v@.name is Some <==> v.name is Some,
        v.name is Some ==> v@.name->0 == v.name->0@,
        v@.serial_string is Some <==> v.serial_string is Some,
        v.serial_string is Some ==> v@.serial_string->0 == v.serial_string->0@,
        v@.extension_count == v.extension_count,
        v@.length == v.length,
        v@.blocks.len() == v.blocks.len(),
        0 <= i < v.blocks.len() ==> v@.blocks[i] == v.blocks[i]@,
        v@.range_limits == v.range_limits,
        v@.timings == v.timings@,
{
}

/// The model of what a cap did holds each of its fields.
pub proof fn law_cap_result_view(v: CapResult, i: int)
    ensures
        v@.bytes == v.bytes@,
        v@.dropped == v.dropped@,
        v@.notes.len() == v.notes.len(),
        0 <= i < v.notes.len() ==> v@.notes[i] == v.notes[i]@,
        v@.max_timing == v.max_timing,
        v@.unchanged == v.unchanged,
{
}

/// The model of a CTA-861 block holds each of its fields.
pub proof fn law_cta_block_view(v: CtaBlock, i: int)
    ensures
        v@.revision == v.revision,
        v@.flags == v.flags,
        v@.data_blocks.len() == v.data_blocks.len(),
        0 <= i < v.data_blocks.len() ==> v@.data_blocks[i].0 == v.data_blocks[i].0 && v@.data_blocks[i].1 == v.data_blocks[i].1@,
        v@.dtds.len() == v.dtds.len(),
        0 <= i < v.dtds.len() ==> v@.dtds[i] == v.dtds[i]@,
{
}

/// The model of a DisplayID block holds each of its fields.
pub proof fn law_displayid_block_view(v: DisplayIdBlock, i: int)
    ensures
        v@.version == v.version,
        v@.product_type == v.product_type,
        v@.ext_count == v.ext_count,
        v@.blocks.len() == v.blocks.len(),
        0 <= i < v.blocks.len() ==> v@.blocks[i].0 == v.blocks[i].0 && v@.blocks[i].1 == v.blocks[i].1 && v@.blocks[i].2 == v.blocks[i].2@,
{
}

/// The model of how a timing is shown holds each of its fields.
pub proof fn law_timing_text_view(v: TimingText)
    ensures
        v@.hertz == v.hertz@,
        v@.megahertz == v.megahertz@,
        v@.active == v.active@,
        v@.total == v.total@,
{
}

/// The model of a display holds each of its fields.
pub proof fn law_display_view(v: Display)
    ensures
        v@.index == v.index,
        v@.path == v.path@,
        v@.pipe is Some <==> v.pipe is Some,
        v.pipe is Some ==> v@.pipe->0 == v.pipe->0@,
        v@.location == v.location@,
        v@.edid is Some <==> v.edid is Some,
        v.edid is Some ==> v@.edid->0 == v.edid->0@,
        v@.copy_edid_status == v.copy_edid_status,
        v@.service == v.service,
{
}

/// The model of a mapping of the crossbar holds each of its fields.
pub proof fn law_pipe_mapping_view(v: PipeMapping)
    ensures
        v@.product_name == v.product_name@,
        v@.product_id == v.product_id,
        v@.address == v.address@,
        v@.max_w == v.max_w,
        v@.max_h == v.max_h,
        v@.max_pipes == v.max_pipes,
        v@.pipe_ids == v.pipe_ids@,
        v@.max_active_pixel_rate == v.max_active_pixel_rate,
        v@.max_total_pixel_rate == v.max_total_pixel_rate,
        v@.max_bpc == v.max_bpc,
{
}

/// The model of the crossbar holds each of its fields.
pub proof fn law_crossbar_view(v: CrossbarState, i: int)
    ensures
        v@.mappings.len() == v.mappings.len(),
        0 <= i < v.mappings.len() ==> v@.mappings[i] == v.mappings[i]@,
        v@.pending.len() == v.pending.len(),
        0 <= i < v.pending.len() ==> v@.pending[i] == v.pending[i]@,
        v@.available_ufps.len() == v.available_ufps.len(),
        0 <= i < v.available_ufps.len() ==> v@.available_ufps[i] == v.available_ufps[i]@,
        v@.current_state == v.current_state,
{
}

/// The model of a framebuffer holds each of its fields.
pub proof fn law_framebuffer_view(v: Framebuffer)
    ensures
        v@.product_name == v.product_name@,
        v@.max_refresh_hz == v.max_refresh_hz,
        v@.port_id == v.port_id,
        v@.pipe == v.pipe@,
{
}

/// The model of the summary of a display holds each of its fields.
pub proof fn law_summary_view(v: DisplaySummary)
    ensures
        v@.index == v.index,
        v@.id is Some <==> v.id is Some,
        v.id is Some ==> v@.id->0 == v.id->0@,
        v@.name is Some <==> v.name is Some,
        v.name is Some ==> v@.name->0 == v.name->0@,
        v@.pipe is Some <==> v.pipe is Some,
        v.pipe is Some ==> v@.pipe->0 == v.pipe->0@,
        v@.edid_bytes == v.edid_bytes,
        v@.max_mode is Some <==> v.max_mode is Some,
        v.max_mode is Some ==> v@.max_mode->0 == v.max_mode->0@,
        v@.max_timing == v.max_timing,
        v@.copy_edid_status == v.copy_edid_status,
{
}

/// The model of the report holds each of its fields.
pub proof fn law_report_view(v: StatusReport, i: int)
    ensures
        v@.pipe_count == v.pipe_count,
        v@.limits == v.limits,
        v@.limits_from_registry == v.limits_from_registry,
        v@.crossbar is Some <==> v.crossbar is Some,
        v.crossbar is Some ==> v@.crossbar->0 == v.crossbar->0@,
        v@.active.len() == v.active.len(),
        0 <= i < v.active.len() ==> v@.active[i] == v.active[i]@,
        v@.displays.len() == v.displays.len(),
        0 <= i < v.displays.len() ==> v@.displays[i] == v.displays[i]@,
        v@.suggestions.len() == v.suggestions.len(),
        0 <= i < v.suggestions.len() ==> v@.suggestions[i] == v.suggestions[i]@,
{
}

/// The model of what installing the agent does holds each of its fields.
pub proof fn law_install_view(v: Install, i: int)
    ensures
        v@.path == v.path@,
        v@.plist == v.plist@,
        v@.unload.len() == v.unload.len(),
        0 <= i < v.unload.len() ==> v@.unload[i] == v.unload[i]@,
        v@.load.len() == v.load.len(),
        0 <= i < v.load.len() ==> v@.load[i] == v.load[i]@,
{
}

} // verus!
