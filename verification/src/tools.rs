use vstd::prelude::*;

verus! {

/// Every tool the editor can activate.
#[derive(Debug, Clone, Copy, PartialEq, Eq, Hash, Structural)]
pub enum ToolType {
    Select,
    Crop,
    Navigate,
    Sample,
    Text,
    Fill,
    Gradient,
    Brush,
    Heal,
    Clone,
    Patch,
    BlurSharpen,
    Relight,
    Path,
    Pen,
    Freehand,
    Spline,
    Line,
    Rectangle,
    Ellipse,
    Shape,
}

/// The per-tool settings a document remembers between activations.
#[derive(Debug, Clone, Copy, PartialEq, Eq, Structural)]
pub enum ToolSettings {
    Select { append_mode: SelectAppendMode },
    Ellipse,
    Shape { shape: Shape },
}

/// How a fresh selection combines with the existing one.
#[derive(Debug, Clone, Copy, PartialEq, Eq, Structural)]
pub enum SelectAppendMode {
    New,
    Add,
    Subtract,
    Intersect,
}

/// The geometry the shape tool draws.
#[derive(Debug, Clone, Copy, PartialEq, Eq, Structural)]
pub enum Shape {
    Star { vertices: u32 },
    Polygon { vertices: u32 },
}

impl ToolType {
    /// The display name of the tool.
    pub open spec fn spec_name(self) -> Seq<char> {
        match self {
            ToolType::Select => "Select"@,
            ToolType::Crop => "Crop"@,
            ToolType::Navigate => "Navigate"@,
            ToolType::Sample => "Sample"@,
            ToolType::Text => "Text"@,
            ToolType::Fill => "Fill"@,
            ToolType::Gradient => "Gradient"@,
            ToolType::Brush => "Brush"@,
            ToolType::Heal => "Heal"@,
            ToolType::Clone => "Clone"@,
            ToolType::Patch => "Patch"@,
            ToolType::BlurSharpen => "BlurSharpen"@,
            ToolType::Relight => "Relight"@,
            ToolType::Path => "Path"@,
            ToolType::Pen => "Pen"@,
            ToolType::Freehand => "Freehand"@,
            ToolType::Spline => "Spline"@,
            ToolType::Line => "Line"@,
            ToolType::Rectangle => "Rectangle"@,
            ToolType::Ellipse => "Ellipse"@,
            ToolType::Shape => "Shape"@,
        }
    }

    /// Renders the tool's display name.
    pub fn name(&self) -> (r: &'static str)
        ensures
            r@ == self.spec_name(),
    {
        match self {
            ToolType::Select => "Select",
            ToolType::Crop => "Crop",
            ToolType::Navigate => "Navigate",
            ToolType::Sample => "Sample",
            ToolType::Text => "Text",
            ToolType::Fill => "Fill",
            ToolType::Gradient => "Gradient",
            ToolType::Brush => "Brush",
            ToolType::Heal => "Heal",
            ToolType::Clone => "Clone",
            ToolType::Patch => "Patch",
            ToolType::BlurSharpen => "BlurSharpen",
            ToolType::Relight => "Relight",
            ToolType::Path => "Path",
            ToolType::Pen => "Pen",
            ToolType::Freehand => "Freehand",
            ToolType::Spline => "Spline",
            ToolType::Line => "Line",
            ToolType::Rectangle => "Rectangle",
            ToolType::Ellipse => "Ellipse",
            ToolType::Shape => "Shape",
        }
    }

    /// The settings a tool starts out with.  Defaults exist for the
    /// select, ellipse and shape tools.
    pub fn default_settings(&self) -> (r: ToolSettings)
        requires
            self is Select || self is Ellipse || self is Shape,
        ensures
            self is Select ==> r == (ToolSettings::Select { append_mode: SelectAppendMode::New }),
            self is Ellipse ==> r == ToolSettings::Ellipse,
            self is Shape ==> r == (ToolSettings::Shape {
                shape: Shape::Polygon { vertices: 3 },
            }),
    {
        match self {
            ToolType::Select => ToolSettings::Select { append_mode: SelectAppendMode::New },
            ToolType::Ellipse => ToolSettings::Ellipse,
            ToolType::Shape => ToolSettings::Shape { shape: Shape::Polygon { vertices: 3 } },
            _ => {
                proof {
                    assert(false);
                }
                ToolSettings::Ellipse
            },
        }
    }
}

/// The settings table a fresh editor session starts with: one entry per
/// tool that has defaults.
pub fn default_tool_settings() -> (r: Vec<(ToolType, ToolSettings)>)
    ensures
        r@.len() == 3,
        r@[0] == (ToolType::Select, (ToolSettings::Select {
            append_mode: SelectAppendMode::New,
        })),
        r@[1] == (ToolType::Ellipse, ToolSettings::Ellipse),
        r@[2] == (ToolType::Shape, (ToolSettings::Shape {
            shape: Shape::Polygon { vertices: 3 },
        })),
{
    let mut r: Vec<(ToolType, ToolSettings)> = Vec::new();
    let select = ToolType::Select;
    let ellipse = ToolType::Ellipse;
    let shape = ToolType::Shape;
    r.push((select, select.default_settings()));
    r.push((ellipse, ellipse.default_settings()));
    r.push((shape, shape.default_settings()));
    r
}

} // verus!
