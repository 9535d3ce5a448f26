use pendulum_sim::app_state::{ActivePanel, Exports};

#[test]
fn active_panel_default_is_simulation() {
    assert_eq!(ActivePanel::default(), ActivePanel::SimulationPanel);
}

#[test]
fn selectable_panels_follow_render_export() {
    assert_eq!(
        ActivePanel::selectable_panels(true),
        vec![ActivePanel::SimulationPanel, ActivePanel::SelectionPanel, ActivePanel::RenderExportPanel]
    );
    assert_eq!(
        ActivePanel::selectable_panels(false),
        vec![ActivePanel::SimulationPanel, ActivePanel::SelectionPanel]
    );
}

#[test]
fn render_export_panel_falls_back_when_disabled() {
    let mut panel = ActivePanel::RenderExportPanel;
    assert!(!panel.is_available(false));
    panel.settle(false);
    assert_eq!(panel, ActivePanel::SimulationPanel);
    assert!(panel.is_available(false));
}

#[test]
fn settle_keeps_available_panels() {
    let mut panel = ActivePanel::RenderExportPanel;
    panel.settle(true);
    assert_eq!(panel, ActivePanel::RenderExportPanel);
    let mut panel = ActivePanel::SelectionPanel;
    panel.settle(false);
    assert_eq!(panel, ActivePanel::SelectionPanel);
}

#[test]
fn settled_panel_is_always_selectable() {
    for enabled in [false, true] {
        for start in [ActivePanel::SimulationPanel, ActivePanel::SelectionPanel, ActivePanel::RenderExportPanel] {
            let mut panel = start;
            panel.settle(enabled);
            assert!(ActivePanel::selectable_panels(enabled).contains(&panel));
        }
    }
}

#[test]
fn exports_compare() {
    assert_eq!(Exports::RenderExport, Exports::RenderExport);
}
