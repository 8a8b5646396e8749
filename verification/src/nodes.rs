use vstd::prelude::*;

use crate::catalog::{inputs_view, outputs_view};
use crate::node::{
    io_kind, spec_inputs, spec_name, spec_outputs, BitmapValue, IOKind, IOValue, NodeIOType,
    NodeKind,
};

verus! {

/// The final node: its input is the image the graph produces.
#[derive(Debug)]
pub struct FinalNode {}

/// Reads an image file named by its input.
#[derive(Debug)]
pub struct ImageInputNode {}

/// Produces an image of one color.
#[derive(Debug)]
pub struct ColorToImageNode {}

/// Adds, subtracts, multiplies or divides two numbers.
#[derive(Debug)]
pub struct MathNode {}

/// Rotates an image.
#[derive(Debug)]
pub struct RotationNode {}

/// Blends a foreground image onto a background image.
#[derive(Debug)]
pub struct BlendNode {}

/// Composes two images by an alpha-compositing operator.
#[derive(Debug)]
pub struct ComposeNode {}

/// Inverts the colors of an image.
#[derive(Debug)]
pub struct InvertNode {}

/// Mixes two images under a grayscale mask.
#[derive(Debug)]
pub struct OverlayWithMaskNode {}

/// Moves an image by an offset.
#[derive(Debug)]
pub struct MoveNode {}

/// Changes the size of an image.
#[derive(Debug)]
pub struct ResizeNode {}

/// Produces a grayscale image of one luma value.
#[derive(Debug)]
pub struct LumaToGrayscaleNode {}

/// Splits an image into grayscale images of its red, green, blue and alpha channels.
#[derive(Debug)]
pub struct SeparateRGBANode {}

/// Scales an image.
#[derive(Debug)]
pub struct ScaleNode {}

/// Supplies a fixed bitmap.
#[derive(Debug)]
pub struct BitmapLiteralNode {
    pub bitmap: BitmapValue,
}

/// Supplies a fixed color.
#[derive(Debug)]
pub struct ColorLiteralNode {
    pub color: [u8; 4],
}

/// Supplies a fixed floating-point number, held as its decimal text.
#[derive(Debug)]
pub struct FloatLiteralNode {
    pub floatLiteral: String,
}

/// Supplies a fixed integer.
#[derive(Debug)]
pub struct IntLiteralNode {
    pub intLiteral: i64,
}

/// Supplies a fixed string.
#[derive(Debug)]
pub struct StringLiteralNode {
    pub stringLiteral: String,
}

/// Supplies a fixed image.
#[derive(Debug)]
pub struct DynamicImageLiteralNode {
    pub image: BitmapValue,
}

/// Supplies a fixed luminance value.
#[derive(Debug)]
pub struct LumaLiteralNode {
    pub luma: u8,
}

impl FinalNode {
    pub fn new() -> Self {
        FinalNode {  }
    }
}

impl ImageInputNode {
    pub fn new() -> Self {
        ImageInputNode {  }
    }
}

impl ColorToImageNode {
    pub fn new() -> Self {
        ColorToImageNode {  }
    }
}

impl MathNode {
    pub fn new() -> Self {
        MathNode {  }
    }
}

impl RotationNode {
    pub fn new() -> Self {
        RotationNode {  }
    }
}

impl BlendNode {
    pub fn new() -> Self {
        BlendNode {  }
    }
}

impl ComposeNode {
    pub fn new() -> Self {
        ComposeNode {  }
    }
}

impl InvertNode {
    pub fn new() -> Self {
        InvertNode {  }
    }
}

impl OverlayWithMaskNode {
    pub fn new() -> Self {
        OverlayWithMaskNode {  }
    }
}

impl MoveNode {
    pub fn new() -> Self {
        MoveNode {  }
    }
}

impl ResizeNode {
    pub fn new() -> Self {
        ResizeNode {  }
    }
}

impl ScaleNode {
    pub fn new() -> Self {
        ScaleNode {  }
    }
}

impl LumaToGrayscaleNode {
    pub fn new() -> Self {
        LumaToGrayscaleNode {  }
    }
}

impl SeparateRGBANode {
    pub fn new() -> Self {
        SeparateRGBANode {  }
    }
}

impl BitmapLiteralNode {
    pub fn new(bitmap: BitmapValue) -> (r: Self)
        ensures
            r.bitmap == bitmap,
    {
        BitmapLiteralNode { bitmap }
    }
}

impl ColorLiteralNode {
    pub fn new(color: [u8; 4]) -> (r: Self)
        ensures
            r.color == color,
    {
        ColorLiteralNode { color }
    }
}

impl FloatLiteralNode {
    pub fn new(floatLiteral: String) -> (r: Self)
        ensures
            r.floatLiteral@ == floatLiteral@,
    {
        FloatLiteralNode { floatLiteral }
    }
}

impl IntLiteralNode {
    pub fn new(intLiteral: i64) -> (r: Self)
        ensures
            r.intLiteral == intLiteral,
    {
        IntLiteralNode { intLiteral }
    }
}

impl StringLiteralNode {
    pub fn new(stringLiteral: String) -> (r: Self)
        ensures
            r.stringLiteral@ == stringLiteral@,
    {
        StringLiteralNode { stringLiteral }
    }
}

impl DynamicImageLiteralNode {
    pub fn new(image: BitmapValue) -> (r: Self)
        ensures
            r.image == image,
    {
        DynamicImageLiteralNode { image }
    }
}

impl LumaLiteralNode {
    pub fn new(luma: u8) -> (r: Self)
        ensures
            r.luma == luma,
    {
        LumaLiteralNode { luma }
    }
}

/// A node of a graph.
#[derive(Debug)]
pub enum Node {
    Final(FinalNode),
    ImageInput(ImageInputNode),
    ColorToImage(ColorToImageNode),
    Math(MathNode),
    Rotation(RotationNode),
    Blend(BlendNode),
    Compose(ComposeNode),
    Invert(InvertNode),
    OverlayWithMask(OverlayWithMaskNode),
    Move(MoveNode),
    Resize(ResizeNode),
    Scale(ScaleNode),
    LumaToGrayscale(LumaToGrayscaleNode),
    SeparateRGBA(SeparateRGBANode),
    BitmapLiteral(BitmapLiteralNode),
    ColorLiteral(ColorLiteralNode),
    FloatLiteral(FloatLiteralNode),
    IntLiteral(IntLiteralNode),
    StringLiteral(StringLiteralNode),
    DynamicImageLiteral(DynamicImageLiteralNode),
    LumaLiteral(LumaLiteralNode),
}

/// What a node is: its kind and, for a literal node, the value it supplies.
pub struct NodeView {
    pub kind: NodeKind,
    pub value: Option<IOValue>,
}

impl View for Node {
    type V = NodeView;

    open spec fn view(&self) -> NodeView {
        match self {
            Node::Final(_) => NodeView { kind: NodeKind::Final, value: None },
            Node::ImageInput(_) => NodeView { kind: NodeKind::ImageInput, value: None },
            Node::ColorToImage(_) => NodeView { kind: NodeKind::ColorToImage, value: None },
            Node::Math(_) => NodeView { kind: NodeKind::Math, value: None },
            Node::Rotation(_) => NodeView { kind: NodeKind::Rotation, value: None },
            Node::Blend(_) => NodeView { kind: NodeKind::Blend, value: None },
            Node::Compose(_) => NodeView { kind: NodeKind::Compose, value: None },
            Node::Invert(_) => NodeView { kind: NodeKind::Invert, value: None },
            Node::OverlayWithMask(_) => NodeView { kind: NodeKind::OverlayWithMask, value: None },
            Node::Move(_) => NodeView { kind: NodeKind::Move, value: None },
            Node::Resize(_) => NodeView { kind: NodeKind::Resize, value: None },
            Node::Scale(_) => NodeView { kind: NodeKind::Scale, value: None },
            Node::LumaToGrayscale(_) => NodeView { kind: NodeKind::LumaToGrayscale, value: None },
            Node::SeparateRGBA(_) => NodeView { kind: NodeKind::SeparateRGBA, value: None },
            Node::BitmapLiteral(n) => NodeView {
                kind: NodeKind::BitmapLiteral,
                value: Some(IOValue::Bitmap(n.bitmap)),
            },
            Node::ColorLiteral(n) => NodeView {
                kind: NodeKind::ColorLiteral,
                value: Some(IOValue::Color(n.color)),
            },
            Node::FloatLiteral(n) => NodeView {
                kind: NodeKind::FloatLiteral,
                value: Some(IOValue::Float(n.floatLiteral@)),
            },
            Node::IntLiteral(n) => NodeView {
                kind: NodeKind::IntLiteral,
                value: Some(IOValue::Int(n.intLiteral)),
            },
            Node::StringLiteral(n) => NodeView {
                kind: NodeKind::StringLiteral,
                value: Some(IOValue::Str(n.stringLiteral@)),
            },
            Node::DynamicImageLiteral(n) => NodeView {
                kind: NodeKind::DynamicImageLiteral,
                value: Some(IOValue::DynamicImage(n.image)),
            },
            Node::LumaLiteral(n) => NodeView {
                kind: NodeKind::LumaLiteral,
                value: Some(IOValue::Luma(n.luma)),
            },
        }
    }
}

/// The literal node that supplies the value `v`.
pub open spec fn literal_view(v: IOValue) -> NodeView {
    NodeView {
        kind: match v {
            IOValue::Int(_) => NodeKind::IntLiteral,
            IOValue::Float(_) => NodeKind::FloatLiteral,
            IOValue::Bitmap(_) => NodeKind::BitmapLiteral,
            IOValue::Color(_) => NodeKind::ColorLiteral,
            IOValue::Str(_) => NodeKind::StringLiteral,
            IOValue::DynamicImage(_) => NodeKind::DynamicImageLiteral,
            IOValue::Luma(_) => NodeKind::LumaLiteral,
        },
        value: Some(v),
    }
}

/// Errors a node reports when it is given or asked for a value.
#[derive(Debug)]
pub enum NodeError {
    InvalidInput(String, NodeIOType, u16),
    InvalidInputIndex(String, u16),
    InvalidOutputIndex(String, u16),
    NoOutput(String),
    NoInput(String),
    IOError(String),
}

pub type NodeResult<T> = Result<T, NodeError>;

impl Node {
    /// Builds the literal node that supplies `value`.
    pub fn literal(value: NodeIOType) -> (r: Node)
        ensures
            r@ == literal_view(value@),
    {
        match value {
            NodeIOType::IntType(i) => Node::IntLiteral(IntLiteralNode::new(i)),
            NodeIOType::FloatType(s) => Node::FloatLiteral(FloatLiteralNode::new(s)),
            NodeIOType::BitmapType(b) => Node::BitmapLiteral(BitmapLiteralNode::new(b)),
            NodeIOType::ColorType(c) => Node::ColorLiteral(ColorLiteralNode::new(c)),
            NodeIOType::StringType(s) => Node::StringLiteral(StringLiteralNode::new(s)),
            NodeIOType::DynamicImageType(b) => Node::DynamicImageLiteral(
                DynamicImageLiteralNode::new(b),
            ),
            NodeIOType::LumaType(l) => Node::LumaLiteral(LumaLiteralNode::new(l)),
        }
    }

    /// The kind of this node.
    pub fn kind(&self) -> (k: NodeKind)
        ensures
            k == self@.kind,
    {
        match self {
            Node::Final(_) => NodeKind::Final,
            Node::ImageInput(_) => NodeKind::ImageInput,
            Node::ColorToImage(_) => NodeKind::ColorToImage,
            Node::Math(_) => NodeKind::Math,
            Node::Rotation(_) => NodeKind::Rotation,
            Node::Blend(_) => NodeKind::Blend,
            Node::Compose(_) => NodeKind::Compose,
            Node::Invert(_) => NodeKind::Invert,
            Node::OverlayWithMask(_) => NodeKind::OverlayWithMask,
            Node::Move(_) => NodeKind::Move,
            Node::Resize(_) => NodeKind::Resize,
            Node::Scale(_) => NodeKind::Scale,
            Node::LumaToGrayscale(_) => NodeKind::LumaToGrayscale,
            Node::SeparateRGBA(_) => NodeKind::SeparateRGBA,
            Node::BitmapLiteral(_) => NodeKind::BitmapLiteral,
            Node::ColorLiteral(_) => NodeKind::ColorLiteral,
            Node::FloatLiteral(_) => NodeKind::FloatLiteral,
            Node::IntLiteral(_) => NodeKind::IntLiteral,
            Node::StringLiteral(_) => NodeKind::StringLiteral,
            Node::DynamicImageLiteral(_) => NodeKind::DynamicImageLiteral,
            Node::LumaLiteral(_) => NodeKind::LumaLiteral,
        }
    }

    /// The value a literal node supplies; `None` for other nodes.
    pub fn literal_value(&self) -> (r: Option<NodeIOType>)
        ensures
            match r {
                Some(v) => self@.value == Some(v@),
                None => self@.value is None,
            },
    {
        match self {
            Node::BitmapLiteral(n) => Some(NodeIOType::BitmapType(n.bitmap)),
            Node::ColorLiteral(n) => Some(NodeIOType::ColorType(n.color)),
            Node::FloatLiteral(n) => Some(NodeIOType::FloatType(n.floatLiteral.clone())),
            Node::IntLiteral(n) => Some(NodeIOType::IntType(n.intLiteral)),
            Node::StringLiteral(n) => Some(NodeIOType::StringType(n.stringLiteral.clone())),
            Node::DynamicImageLiteral(n) => Some(NodeIOType::DynamicImageType(n.image)),
            Node::LumaLiteral(n) => Some(NodeIOType::LumaType(n.luma)),
            _ => None,
        }
    }

    /// The input sockets of this node.
    pub fn get_inputs(&self) -> (r: Vec<crate::node::NodeInputOptions>)
        ensures
            inputs_view(r@) == spec_inputs(self@.kind),
    {
        self.kind().get_inputs_static()
    }

    /// The output sockets of this node.
    pub fn get_outputs(&self) -> (r: Vec<crate::node::NodeOutputOptions>)
        ensures
            outputs_view(r@) == spec_outputs(self@.kind),
    {
        self.kind().get_outputs_static()
    }

    /// The display name of this node.
    pub fn get_node_name(&self) -> (r: String)
        ensures
            r@ == spec_name(self@.kind),
    {
        self.kind().get_node_name_static()
    }

    /// Refuses an output index at which the node has no output.
    pub fn generate_output_errors(&self, index: &u16) -> (r: NodeResult<()>)
        ensures
            r is Err <==> spec_outputs(self@.kind).len() <= *index,
            r matches Err(e) ==> (e matches NodeError::InvalidOutputIndex(n, i) && n@ == spec_name(
                self@.kind,
            ) && i == *index),
    {
        let outputs = self.get_outputs();
        assert(outputs@.len() == spec_outputs(self@.kind).len()) by {
            assert(outputs_view(outputs@).len() == outputs@.len());
        }
        if outputs.len() <= (*index as usize) {
            return Err(NodeError::InvalidOutputIndex(self.get_node_name(), *index));
        }
        Ok(())
    }

    /// Refuses a value for an input index at which the node has no input, or
    /// of another kind than the input at that index.
    pub fn generate_input_errors(&self, index: &u16, value: &NodeIOType) -> (r: NodeResult<()>)
        ensures
            r is Err <==> (spec_inputs(self@.kind).len() <= *index || io_kind(value@) != io_kind(
                spec_inputs(self@.kind)[*index as int].io,
            )),
            r matches Err(e) ==> (e matches NodeError::InvalidInput(n, v, i) && n@ == spec_name(
                self@.kind,
            ) && v@ == value@ && i == *index),
    {
        let inputs = self.get_inputs();
        assert(inputs@.len() == spec_inputs(self@.kind).len()) by {
            assert(inputs_view(inputs@).len() == inputs@.len());
        }
        if inputs.len() <= (*index as usize) {
            return Err(NodeError::InvalidInput(self.get_node_name(), value.clone(), *index));
        }
        assert(inputs@[*index as int]@ == spec_inputs(self@.kind)[*index as int]) by {
            assert(inputs_view(inputs@)[*index as int] == inputs@[*index as int]@);
        }
        if value.kind() != inputs[*index as usize].IOType.kind() {
            return Err(NodeError::InvalidInput(self.get_node_name(), value.clone(), *index));
        }
        Ok(())
    }
}

} // verus!
