//! Which exports exist and which panel of the application is shown.
use vstd::prelude::*;

verus! {

/// The exports that a simulation can feed.
#[derive(PartialEq, Eq, Structural, Debug, Clone, Copy, Hash)]
pub enum Exports {
    RenderExport,
}

/// The panels of the application window.
#[derive(PartialEq, Eq, Structural, Debug, Clone, Copy)]
pub enum ActivePanel {
    SimulationPanel,
    SelectionPanel,
    RenderExportPanel,
}

impl Default for ActivePanel {
    fn default() -> (panel: Self)
        ensures
            panel == ActivePanel::SimulationPanel,
    {
        ActivePanel::SimulationPanel
    }
}

impl ActivePanel {
    /// A panel can be shown: the render export panel only while the render
    /// export is enabled, every other panel always.
    pub open spec fn available(self, render_export_enabled: bool) -> bool {
        self != ActivePanel::RenderExportPanel || render_export_enabled
    }

    /// The panels offered by the panel selector, in display order.
    pub fn selectable_panels(render_export_enabled: bool) -> (panels: Vec<ActivePanel>)
        ensures
            panels@ == (if render_export_enabled {
                seq![
                    ActivePanel::SimulationPanel,
                    ActivePanel::SelectionPanel,
                    ActivePanel::RenderExportPanel,
                ]
            } else {
                seq![ActivePanel::SimulationPanel, ActivePanel::SelectionPanel]
            }),
    {
        let mut panels = Vec::new();
        panels.push(ActivePanel::SimulationPanel);
        panels.push(ActivePanel::SelectionPanel);
        if render_export_enabled {
            panels.push(ActivePanel::RenderExportPanel);
        }
        assert(panels@ =~= (if render_export_enabled {
            seq![
                ActivePanel::SimulationPanel,
                ActivePanel::SelectionPanel,
                ActivePanel::RenderExportPanel,
            ]
        } else {
            seq![ActivePanel::SimulationPanel, ActivePanel::SelectionPanel]
        }));
        panels
    }

    /// Whether this panel can be shown.
    pub fn is_available(&self, render_export_enabled: bool) -> (available: bool)
        ensures
            available == self.available(render_export_enabled),
    {
        *self != ActivePanel::RenderExportPanel || render_export_enabled
    }

    /// Falls back to the default panel when the render export panel is active
    /// but the render export has been disabled.
    pub fn settle(&mut self, render_export_enabled: bool)
        ensures
            *final(self) == (if *old(self) == ActivePanel::RenderExportPanel && !render_export_enabled {
                ActivePanel::SimulationPanel
            } else {
                *old(self)
            }),
    {
        if *self == ActivePanel::RenderExportPanel && !render_export_enabled {
            *self = ActivePanel::default();
        }
    }
}

/// The panel selector offers exactly the panels that can be shown.
pub proof fn lemma_selectable_are_available(render_export_enabled: bool, panel: ActivePanel)
    ensures
        (if render_export_enabled {
            seq![
                ActivePanel::SimulationPanel,
                ActivePanel::SelectionPanel,
                ActivePanel::RenderExportPanel,
            ]
        } else {
            seq![ActivePanel::SimulationPanel, ActivePanel::SelectionPanel]
        }).contains(panel) <==> panel.available(render_export_enabled),
{
    let s = if render_export_enabled {
        seq![ActivePanel::SimulationPanel, ActivePanel::SelectionPanel, ActivePanel::RenderExportPanel]
    } else {
        seq![ActivePanel::SimulationPanel, ActivePanel::SelectionPanel]
    };
    match panel {
        ActivePanel::SimulationPanel => assert(s[0] == panel),
        ActivePanel::SelectionPanel => assert(s[1] == panel),
        ActivePanel::RenderExportPanel => {
            if render_export_enabled {
                assert(s[2] == panel);
            }
        },
    }
}

/// After settling, the shown panel can be shown; a panel that could already
/// be shown is kept; settling twice is settling once.
pub proof fn lemma_settle(panel: ActivePanel, render_export_enabled: bool)
    ensures
        ({
            let settled = if panel == ActivePanel::RenderExportPanel && !render_export_enabled {
                ActivePanel::SimulationPanel
            } else {
                panel
            };
            &&& settled.available(render_export_enabled)
            &&& panel.available(render_export_enabled) ==> settled == panel
            &&& (if settled == ActivePanel::RenderExportPanel && !render_export_enabled {
                ActivePanel::SimulationPanel
            } else {
                settled
            }) == settled
        }),
{
}

} // verus!
