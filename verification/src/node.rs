use vstd::prelude::*;

verus! {

/// The kind of value that travels through a socket.
#[derive(Clone, Copy, PartialEq, Eq, Debug, Structural)]
pub enum IOKind {
    Int,
    Float,
    Bitmap,
    Color,
    String,
    DynamicImage,
    Luma,
}

/// A bitmap described by its contents: either the empty bitmap or a
/// `width` x `height` bitmap in which every pixel has the RGBA value `color`.
#[derive(Clone, Copy, PartialEq, Eq, Debug)]
pub enum BitmapValue {
    Empty,
    Filled { width: u32, height: u32, color: [u8; 4] },
}

/// A value carried by a socket. Floating-point values are held as the decimal
/// text that denotes them (see `text::is_float_literal`).
#[derive(Debug)]
pub enum NodeIOType {
    IntType(i64),
    FloatType(String),
    BitmapType(BitmapValue),
    ColorType([u8; 4]),
    StringType(String),
    DynamicImageType(BitmapValue),
    LumaType(u8),
}

/// The mathematical value of a `NodeIOType`.
pub enum IOValue {
    Int(i64),
    Float(Seq<char>),
    Bitmap(BitmapValue),
    Color([u8; 4]),
    Str(Seq<char>),
    DynamicImage(BitmapValue),
    Luma(u8),
}

impl View for NodeIOType {
    type V = IOValue;

    open spec fn view(&self) -> IOValue {
        match self {
            NodeIOType::IntType(i) => IOValue::Int(*i),
            NodeIOType::FloatType(s) => IOValue::Float(s@),
            NodeIOType::BitmapType(b) => IOValue::Bitmap(*b),
            NodeIOType::ColorType(c) => IOValue::Color(*c),
            NodeIOType::StringType(s) => IOValue::Str(s@),
            NodeIOType::DynamicImageType(b) => IOValue::DynamicImage(*b),
            NodeIOType::LumaType(l) => IOValue::Luma(*l),
        }
    }
}

/// The kind of a socket value.
pub open spec fn io_kind(v: IOValue) -> IOKind {
    match v {
        IOValue::Int(_) => IOKind::Int,
        IOValue::Float(_) => IOKind::Float,
        IOValue::Bitmap(_) => IOKind::Bitmap,
        IOValue::Color(_) => IOKind::Color,
        IOValue::Str(_) => IOKind::String,
        IOValue::DynamicImage(_) => IOKind::DynamicImage,
        IOValue::Luma(_) => IOKind::Luma,
    }
}

impl NodeIOType {
    /// The kind of this value.
    pub fn kind(&self) -> (k: IOKind)
        ensures
            k == io_kind(self@),
    {
        match self {
            NodeIOType::IntType(_) => IOKind::Int,
            NodeIOType::FloatType(_) => IOKind::Float,
            NodeIOType::BitmapType(_) => IOKind::Bitmap,
            NodeIOType::ColorType(_) => IOKind::Color,
            NodeIOType::StringType(_) => IOKind::String,
            NodeIOType::DynamicImageType(_) => IOKind::DynamicImage,
            NodeIOType::LumaType(_) => IOKind::Luma,
        }
    }
}

/// The name of each kind of value, as the editor shows it.
pub open spec fn kind_name(k: IOKind) -> Seq<char> {
    match k {
        IOKind::Int => "int"@,
        IOKind::Float => "float"@,
        IOKind::Bitmap => "bitmap"@,
        IOKind::Color => "color"@,
        IOKind::String => "string"@,
        IOKind::DynamicImage => "dynamic image"@,
        IOKind::Luma => "luma"@,
    }
}

impl NodeIOType {
    /// The name of the kind of this value.
    pub fn kind_text(&self) -> (r: &'static str)
        ensures
            r@ == kind_name(io_kind(self@)),
    {
        match self {
            NodeIOType::IntType(_) => "int",
            NodeIOType::FloatType(_) => "float",
            NodeIOType::BitmapType(_) => "bitmap",
            NodeIOType::ColorType(_) => "color",
            NodeIOType::StringType(_) => "string",
            NodeIOType::DynamicImageType(_) => "dynamic image",
            NodeIOType::LumaType(_) => "luma",
        }
    }
}

impl Clone for NodeIOType {
    fn clone(&self) -> (r: Self)
        ensures
            r@ == self@,
    {
        match self {
            NodeIOType::IntType(i) => NodeIOType::IntType(*i),
            NodeIOType::FloatType(s) => NodeIOType::FloatType(s.clone()),
            NodeIOType::BitmapType(b) => NodeIOType::BitmapType(*b),
            NodeIOType::ColorType(c) => NodeIOType::ColorType(*c),
            NodeIOType::StringType(s) => NodeIOType::StringType(s.clone()),
            NodeIOType::DynamicImageType(b) => NodeIOType::DynamicImageType(*b),
            NodeIOType::LumaType(l) => NodeIOType::LumaType(*l),
        }
    }
}

/// Hints to a user interface about what a socket holds.
#[derive(Clone, Copy, PartialEq, Eq, Debug, Structural)]
pub enum NodeIOSubtypes {
    ColorCurves,
    FilePath,
    GrayscaleImage,
    ColorImage,
}

/// Description of one input socket; `IOType` holds its default value.
#[derive(Debug)]
pub struct NodeInputOptions {
    pub IOType: NodeIOType,
    pub canAlterDefault: bool,
    pub hasConnection: bool,
    pub name: String,
    pub presetValues: Option<Vec<String>>,
    pub subtype: Option<NodeIOSubtypes>,
}

/// Description of one output socket.
#[derive(Debug)]
pub struct NodeOutputOptions {
    pub IOType: NodeIOType,
    pub hasConnection: bool,
    pub name: String,
    pub subtype: Option<NodeIOSubtypes>,
}

/// The mathematical value of a `NodeInputOptions`.
pub struct InputOptionsView {
    pub io: IOValue,
    pub can_alter_default: bool,
    pub has_connection: bool,
    pub name: Seq<char>,
    pub preset_values: Option<Seq<Seq<char>>>,
    pub subtype: Option<NodeIOSubtypes>,
}

/// The mathematical value of a `NodeOutputOptions`.
pub struct OutputOptionsView {
    pub io: IOValue,
    pub has_connection: bool,
    pub name: Seq<char>,
    pub subtype: Option<NodeIOSubtypes>,
}

pub open spec fn strings_view(v: Vec<String>) -> Seq<Seq<char>> {
    v@.map_values(|s: String| s@)
}

impl View for NodeInputOptions {
    type V = InputOptionsView;

    open spec fn view(&self) -> InputOptionsView {
        InputOptionsView {
            io: self.IOType@,
            can_alter_default: self.canAlterDefault,
            has_connection: self.hasConnection,
            name: self.name@,
            preset_values: match self.presetValues {
                Some(v) => Some(strings_view(v)),
                None => None,
            },
            subtype: self.subtype,
        }
    }
}

impl View for NodeOutputOptions {
    type V = OutputOptionsView;

    open spec fn view(&self) -> OutputOptionsView {
        OutputOptionsView {
            io: self.IOType@,
            has_connection: self.hasConnection,
            name: self.name@,
            subtype: self.subtype,
        }
    }
}

/// Every node type known to the editor.
#[derive(Clone, Copy, PartialEq, Eq, Debug, Structural)]
pub enum NodeKind {
    Final,
    ImageInput,
    ColorToImage,
    Math,
    Rotation,
    Blend,
    Compose,
    Invert,
    OverlayWithMask,
    Move,
    Resize,
    Scale,
    LumaToGrayscale,
    SeparateRGBA,
    BitmapLiteral,
    ColorLiteral,
    FloatLiteral,
    IntLiteral,
    StringLiteral,
    DynamicImageLiteral,
    LumaLiteral,
}

// ---------------------------------------------------------------------------
// The socket tables, as mathematical values
// ---------------------------------------------------------------------------

pub open spec fn input_view(
    io: IOValue,
    can_alter_default: bool,
    has_connection: bool,
    name: Seq<char>,
    preset_values: Option<Seq<Seq<char>>>,
    subtype: Option<NodeIOSubtypes>,
) -> InputOptionsView {
    InputOptionsView { io, can_alter_default, has_connection, name, preset_values, subtype }
}

pub open spec fn output_view(io: IOValue, has_connection: bool, name: Seq<char>) -> OutputOptionsView {
    OutputOptionsView { io, has_connection, name, subtype: None }
}

pub open spec fn grayscale_output(name: Seq<char>) -> OutputOptionsView {
    OutputOptionsView {
        io: IOValue::DynamicImage(BitmapValue::Empty),
        has_connection: true,
        name,
        subtype: Some(NodeIOSubtypes::GrayscaleImage),
    }
}

pub open spec fn final_default_bitmap() -> BitmapValue {
    BitmapValue::Filled { width: 500, height: 500, color: [100u8, 0u8, 50u8, 255u8] }
}

pub open spec fn blend_presets() -> Seq<Seq<char>> {
    seq![
        "multiply"@,
        "screen"@,
        "darken"@,
        "lighten"@,
        "color dodge"@,
        "color burn"@,
        "linear dodge"@,
        "linear burn"@,
    ]
}

pub open spec fn compose_presets() -> Seq<Seq<char>> {
    seq!["overlay"@, "mask"@, "inverse mask"@, "atop"@, "neither"@, "foreground"@]
}

pub open spec fn math_presets() -> Seq<Seq<char>> {
    seq!["add"@, "subtract"@, "multiply"@, "divide"@]
}

pub open spec fn move_presets() -> Seq<Seq<char>> {
    seq!["clamp"@, "extend"@, "wrap"@]
}

pub open spec fn resize_presets() -> Seq<Seq<char>> {
    seq!["clamp"@, "resize"@]
}

pub open spec fn scale_presets() -> Seq<Seq<char>> {
    seq!["fast"@, "precise"@]
}

/// The input sockets of each node kind, with their default values.
pub open spec fn spec_inputs(k: NodeKind) -> Seq<InputOptionsView> {
    match k {
        NodeKind::Final => seq![
            input_view(IOValue::Bitmap(final_default_bitmap()), false, true, "bitmap"@, None, None),
        ],
        NodeKind::ImageInput => seq![
            input_view(IOValue::Str("dummy.png"@), true, false, "path"@, None, Some(NodeIOSubtypes::FilePath)),
        ],
        NodeKind::ColorToImage => seq![
            input_view(IOValue::Color([100u8, 100u8, 100u8, 255u8]), true, true, "color"@, None, None),
            input_view(IOValue::Float("500"@), true, true, "width"@, None, None),
            input_view(IOValue::Float("500"@), true, true, "height"@, None, None),
        ],
        NodeKind::Math => seq![
            input_view(IOValue::Int(0), true, false, "operation"@, Some(math_presets()), None),
            input_view(IOValue::Float("0"@), true, true, "x"@, None, None),
            input_view(IOValue::Float("0"@), true, true, "y"@, None, None),
        ],
        NodeKind::Rotation => seq![
            input_view(IOValue::Bitmap(BitmapValue::Empty), false, true, "bitmap"@, None, None),
            input_view(IOValue::Float("0"@), true, true, "angle"@, None, None),
        ],
        NodeKind::Blend => seq![
            input_view(IOValue::Int(0), true, false, "mode"@, Some(blend_presets()), None),
            input_view(IOValue::DynamicImage(BitmapValue::Empty), false, true, "foreground"@, None, None),
            input_view(IOValue::DynamicImage(BitmapValue::Empty), false, true, "background"@, None, None),
        ],
        NodeKind::Compose => seq![
            input_view(IOValue::Int(0), true, false, "mode"@, Some(compose_presets()), None),
            input_view(IOValue::DynamicImage(BitmapValue::Empty), false, true, "foreground"@, None, None),
            input_view(IOValue::DynamicImage(BitmapValue::Empty), false, true, "background"@, None, None),
        ],
        NodeKind::Invert => seq![
            input_view(IOValue::DynamicImage(BitmapValue::Empty), false, true, "inverting"@, None, None),
        ],
        NodeKind::OverlayWithMask => seq![
            input_view(IOValue::DynamicImage(BitmapValue::Empty), false, true, "top"@, None, None),
            input_view(IOValue::DynamicImage(BitmapValue::Empty), false, true, "bottom"@, None, None),
            input_view(IOValue::DynamicImage(BitmapValue::Empty), false, true, "mask"@, None, Some(NodeIOSubtypes::GrayscaleImage)),
        ],
        NodeKind::Move => seq![
            input_view(IOValue::Int(0), true, false, "mode"@, Some(move_presets()), None),
            input_view(IOValue::DynamicImage(BitmapValue::Empty), false, true, "moving"@, None, None),
            input_view(IOValue::Float("0"@), true, true, "x"@, None, None),
            input_view(IOValue::Float("0"@), true, true, "y"@, None, None),
        ],
        NodeKind::Resize => seq![
            input_view(IOValue::Int(0), true, false, "mode"@, Some(resize_presets()), None),
            input_view(IOValue::Bitmap(BitmapValue::Empty), false, true, "resizing"@, None, None),
            input_view(IOValue::Float("0"@), true, true, "x"@, None, None),
            input_view(IOValue::Float("0"@), true, true, "y"@, None, None),
        ],
        NodeKind::Scale => seq![
            input_view(IOValue::Int(0), true, false, "mode"@, Some(scale_presets()), None),
            input_view(IOValue::DynamicImage(BitmapValue::Empty), false, true, "scaling"@, None, None),
            input_view(IOValue::Float("1"@), true, true, "x"@, None, None),
            input_view(IOValue::Float("1"@), true, true, "y"@, None, None),
        ],
        NodeKind::LumaToGrayscale => seq![
            input_view(IOValue::Luma(255), true, true, "luma"@, None, None),
            input_view(IOValue::Float("500"@), true, true, "width"@, None, None),
            input_view(IOValue::Float("500"@), true, true, "height"@, None, None),
        ],
        NodeKind::SeparateRGBA => seq![
            input_view(IOValue::DynamicImage(BitmapValue::Empty), true, true, "separating"@, None, Some(NodeIOSubtypes::ColorImage)),
        ],
        _ => seq![],
    }
}

/// The output sockets of each node kind.
pub open spec fn spec_outputs(k: NodeKind) -> Seq<OutputOptionsView> {
    match k {
        NodeKind::Final => seq![output_view(IOValue::Bitmap(BitmapValue::Empty), false, ""@)],
        NodeKind::ImageInput => seq![output_view(IOValue::Bitmap(BitmapValue::Empty), true, "bitmap"@)],
        NodeKind::ColorToImage => seq![output_view(IOValue::Bitmap(BitmapValue::Empty), true, "bitmap"@)],
        NodeKind::Math => seq![output_view(IOValue::Float("0"@), true, "result"@)],
        NodeKind::Rotation => seq![output_view(IOValue::Bitmap(BitmapValue::Empty), true, "rotated"@)],
        NodeKind::Blend => seq![output_view(IOValue::DynamicImage(BitmapValue::Empty), true, "mixed"@)],
        NodeKind::Compose => seq![output_view(IOValue::DynamicImage(BitmapValue::Empty), true, "mixed"@)],
        NodeKind::Invert => seq![output_view(IOValue::DynamicImage(BitmapValue::Empty), true, "inverted"@)],
        NodeKind::OverlayWithMask => seq![output_view(IOValue::DynamicImage(BitmapValue::Empty), true, "overlayed"@)],
        NodeKind::Move => seq![output_view(IOValue::DynamicImage(BitmapValue::Empty), true, "moved"@)],
        NodeKind::Resize => seq![output_view(IOValue::Bitmap(BitmapValue::Empty), true, "resized"@)],
        NodeKind::Scale => seq![output_view(IOValue::DynamicImage(BitmapValue::Empty), true, "Scaled"@)],
        NodeKind::LumaToGrayscale => seq![grayscale_output("grayscale"@)],
        NodeKind::SeparateRGBA => seq![
            grayscale_output("red"@),
            grayscale_output("green"@),
            grayscale_output("blue"@),
            grayscale_output("alpha"@),
        ],
        NodeKind::BitmapLiteral => seq![output_view(IOValue::Bitmap(BitmapValue::Empty), true, ""@)],
        NodeKind::ColorLiteral => seq![output_view(IOValue::Color([255u8, 255u8, 255u8, 255u8]), true, ""@)],
        NodeKind::FloatLiteral => seq![output_view(IOValue::Float("0"@), true, ""@)],
        NodeKind::IntLiteral => seq![output_view(IOValue::Int(0), true, ""@)],
        NodeKind::StringLiteral => seq![output_view(IOValue::Str(""@), true, ""@)],
        NodeKind::DynamicImageLiteral => seq![output_view(IOValue::DynamicImage(BitmapValue::Empty), true, ""@)],
        NodeKind::LumaLiteral => seq![output_view(IOValue::Luma(255), true, ""@)],
    }
}

/// The display name of each node kind.
pub open spec fn spec_name(k: NodeKind) -> Seq<char> {
    match k {
        NodeKind::Final => "Final"@,
        NodeKind::ImageInput => "Image input"@,
        NodeKind::ColorToImage => "Color to image"@,
        NodeKind::Math => "Math"@,
        NodeKind::Rotation => "Rotate"@,
        NodeKind::Blend => "Blend"@,
        NodeKind::Compose => "Compose"@,
        NodeKind::Invert => "Invert"@,
        NodeKind::OverlayWithMask => "Overlay with mask"@,
        NodeKind::Move => "Move"@,
        NodeKind::Resize => "Resize"@,
        NodeKind::Scale => "Scale"@,
        NodeKind::LumaToGrayscale => "Luma to grayscale"@,
        NodeKind::SeparateRGBA => "Separate RGBA"@,
        NodeKind::BitmapLiteral => "Bitmap literal"@,
        NodeKind::ColorLiteral => "Color literal"@,
        NodeKind::FloatLiteral => "Float literal"@,
        NodeKind::IntLiteral => "integer literal"@,
        NodeKind::StringLiteral => "String literal"@,
        NodeKind::DynamicImageLiteral => "Dynamic image literal"@,
        NodeKind::LumaLiteral => "Luma literal"@,
    }
}

/// The kinds of the input sockets of a node kind.
pub open spec fn input_kinds(k: NodeKind) -> Seq<IOKind> {
    spec_inputs(k).map_values(|o: InputOptionsView| io_kind(o.io))
}

/// The kinds of the output sockets of a node kind.
pub open spec fn output_kinds(k: NodeKind) -> Seq<IOKind> {
    spec_outputs(k).map_values(|o: OutputOptionsView| io_kind(o.io))
}

/// The literal node kind that supplies a default value of the given kind.
pub open spec fn literal_kind(k: IOKind) -> NodeKind {
    match k {
        IOKind::Int => NodeKind::IntLiteral,
        IOKind::Float => NodeKind::FloatLiteral,
        IOKind::Bitmap => NodeKind::BitmapLiteral,
        IOKind::Color => NodeKind::ColorLiteral,
        IOKind::String => NodeKind::StringLiteral,
        IOKind::DynamicImage => NodeKind::DynamicImageLiteral,
        IOKind::Luma => NodeKind::LumaLiteral,
    }
}

/// Literal nodes have no inputs and a single output of the kind they hold.
pub open spec fn is_literal(k: NodeKind) -> bool {
    match k {
        NodeKind::BitmapLiteral | NodeKind::ColorLiteral | NodeKind::FloatLiteral
        | NodeKind::IntLiteral | NodeKind::StringLiteral | NodeKind::DynamicImageLiteral
        | NodeKind::LumaLiteral => true,
        _ => false,
    }
}

/// The literal node for a kind of value has no inputs and a single output of that
/// kind.
pub proof fn lemma_literal_kind(k: IOKind)
    ensures
        is_literal(literal_kind(k)),
        spec_inputs(literal_kind(k)).len() == 0,
        output_kinds(literal_kind(k)).len() == 1,
        output_kinds(literal_kind(k))[0] == k,
{
}

/// A literal node has no inputs.
pub proof fn lemma_literal_has_no_inputs(k: NodeKind)
    requires
        is_literal(k),
    ensures
        spec_inputs(k).len() == 0,
{
}

} // verus!
