use graph_craft::compiler::Executor;
use graph_craft::tools::{default_tool_settings, SelectAppendMode, Shape, ToolSettings, ToolType};

#[test]
fn tool_names_render() {
    assert_eq!(ToolType::Select.name(), "Select");
    assert_eq!(ToolType::BlurSharpen.name(), "BlurSharpen");
    assert_eq!(ToolType::Ellipse.name(), "Ellipse");
    assert_eq!(ToolType::Shape.name(), "Shape");
}

#[test]
fn default_settings_per_tool() {
    assert_eq!(
        ToolType::Select.default_settings(),
        ToolSettings::Select { append_mode: SelectAppendMode::New }
    );
    assert_eq!(ToolType::Ellipse.default_settings(), ToolSettings::Ellipse);
    assert_eq!(
        ToolType::Shape.default_settings(),
        ToolSettings::Shape { shape: Shape::Polygon { vertices: 3 } }
    );
}

#[test]
fn default_settings_table_has_one_entry_per_tool_with_defaults() {
    let table = default_tool_settings();
    assert_eq!(table.len(), 3);
    assert_eq!(table[0].0, ToolType::Select);
    assert_eq!(table[1], (ToolType::Ellipse, ToolSettings::Ellipse));
    assert_eq!(
        table[2],
        (ToolType::Shape, ToolSettings::Shape { shape: Shape::Polygon { vertices: 3 } })
    );
}

struct Doubler;

impl Executor<u64, u64> for Doubler {
    fn execute(&self, input: u64) -> Result<u64, String> {
        input.checked_mul(2).ok_or_else(|| "input too large".to_string())
    }
}

#[test]
fn an_executor_implementation_runs_outside_the_compiler() {
    let e = Doubler;
    assert_eq!(e.execute(21), Ok(42));
    assert!(e.execute(u64::MAX).is_err());
}
