//! The bar above the canvas.

use crate::canvas::stroke::ActiveTool;
use crate::ui::icon::IconName;
use vstd::prelude::*;
use vstd::string::StringExecFns;

verus! {

/// A button that takes up a tool.
pub struct ToolButton {
    pub id: String,
    pub icon: IconName,
    pub tooltip: &'static str,
    /// The tool that is active once the button was pressed.
    pub tool: ActiveTool,
    /// Whether the button stands out.
    pub primary: bool,
}

impl ToolButton {
    /// Whether this is the button given by an icon, a tooltip and a tool.
    pub open spec fn shows(
        self,
        icon: IconName,
        tooltip: Seq<char>,
        tool: ActiveTool,
        active_tool: ActiveTool,
    ) -> bool {
        &&& self.id@ == "tool_"@ + icon.called()
        &&& self.icon == icon
        &&& self.tooltip@ == tooltip
        &&& self.tool == tool
        &&& self.primary == (active_tool == tool)
    }
}

/// What the bar shows.
pub struct Toolbar {
    /// Whether the undo button does anything.
    pub can_undo: bool,
    /// Whether the redo button does anything.
    pub can_redo: bool,
    /// The buttons for the tools, from left to right.
    pub tools: Vec<ToolButton>,
}

/// The buttons for the tools, from left to right, where a tool is active.
pub open spec fn tool_row(tools: Seq<ToolButton>, active: ActiveTool) -> bool {
    &&& tools.len() == 5
    &&& tools[0].shows(IconName::EditPencil, "Paint (B)"@, ActiveTool::Paint, active)
    &&& tools[1].shows(IconName::Erase, "Eraser (E)"@, ActiveTool::Erase, active)
    &&& tools[2].shows(IconName::Droplet, "Fill (G)"@, ActiveTool::Fill, active)
    &&& tools[3].shows(IconName::Eye, "Eyedropper (I)"@, ActiveTool::Eyedropper, active)
    &&& tools[4].shows(IconName::DragHandGesture, "Pan (H)"@, ActiveTool::Pan, active)
}

/// A button for a tool.
pub fn tool_button(
    icon: IconName,
    tooltip_text: &'static str,
    tool: ActiveTool,
    active_tool: ActiveTool,
) -> (r: ToolButton)
    ensures
        r.shows(icon, tooltip_text@, tool, active_tool),
{
    let mut id: String = "tool_".to_owned();
    id.append(icon.name());
    ToolButton { id, icon, tooltip: tooltip_text, tool, primary: active_tool == tool }
}

/// The bar, where the two histories are empty or not and a tool is active.
pub fn render_toolbar(
    is_empty_undo: bool,
    is_empty_redo: bool,
    active_tool: ActiveTool,
) -> (r: Toolbar)
    ensures
        r.can_undo == !is_empty_undo,
        r.can_redo == !is_empty_redo,
        tool_row(r.tools@, active_tool),
{
    let mut tools: Vec<ToolButton> = Vec::new();
    tools.push(
        tool_button(IconName::EditPencil, "Paint (B)", ActiveTool::Paint, active_tool),
    );
    tools.push(tool_button(IconName::Erase, "Eraser (E)", ActiveTool::Erase, active_tool));
    tools.push(tool_button(IconName::Droplet, "Fill (G)", ActiveTool::Fill, active_tool));
    tools.push(
        tool_button(IconName::Eye, "Eyedropper (I)", ActiveTool::Eyedropper, active_tool),
    );
    tools.push(
        tool_button(IconName::DragHandGesture, "Pan (H)", ActiveTool::Pan, active_tool),
    );
    Toolbar { can_undo: !is_empty_undo, can_redo: !is_empty_redo, tools }
}

/// Whatever tool is active, one button stands out, and it is that of the tool.
pub proof fn law_one_primary(tools: Seq<ToolButton>, active: ActiveTool)
    requires
        tool_row(tools, active),
    ensures
        exists|i: int|
            0 <= i < tools.len() && (#[trigger] tools[i]).tool == active && forall|j: int|
                0 <= j < tools.len() ==> ((#[trigger] tools[j]).primary <==> j == i),
{
    let at: int = match active {
        ActiveTool::Paint => 0,
        ActiveTool::Erase => 1,
        ActiveTool::Fill => 2,
        ActiveTool::Eyedropper => 3,
        ActiveTool::Pan => 4,
    };
    assert(tools[at].tool == active);
}

/// There is a button for each tool, from left to right, with its icon, its tooltip and an id of
/// its own, and it stands out if and only if its tool is the active one.
pub proof fn law_buttons_of_the_tools(tools: Seq<ToolButton>, active: ActiveTool)
    requires
        tool_row(tools, active),
    ensures
        tools.len() == 5,
        tools[0].tool is Paint && tools[0].icon is EditPencil && tools[0].tooltip@ == "Paint (B)"@
            && tools[0].id@ == "tool_"@ + "EditPencil"@,
        tools[1].tool is Erase && tools[1].icon is Erase && tools[1].tooltip@ == "Eraser (E)"@
            && tools[1].id@ == "tool_"@ + "Erase"@,
        tools[2].tool is Fill && tools[2].icon is Droplet && tools[2].tooltip@ == "Fill (G)"@
            && tools[2].id@ == "tool_"@ + "Droplet"@,
        tools[3].tool is Eyedropper && tools[3].icon is Eye && tools[3].tooltip@
            == "Eyedropper (I)"@ && tools[3].id@ == "tool_"@ + "Eye"@,
        tools[4].tool is Pan && tools[4].icon is DragHandGesture && tools[4].tooltip@ == "Pan (H)"@
            && tools[4].id@ == "tool_"@ + "DragHandGesture"@,
        forall|i: int| 0 <= i < 5 ==> ((#[trigger] tools[i]).primary <==> tools[i].tool == active),
{
}

} // verus!
