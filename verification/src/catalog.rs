use vstd::prelude::*;

use crate::node::{
    blend_presets, compose_presets, grayscale_output, input_view, math_presets, move_presets, output_view,
    resize_presets, scale_presets, spec_inputs, spec_name, spec_outputs, strings_view, BitmapValue,
    IOValue, InputOptionsView, NodeIOSubtypes, NodeIOType, NodeInputOptions, NodeKind,
    NodeOutputOptions, OutputOptionsView,
};

verus! {

pub open spec fn inputs_view(v: Seq<NodeInputOptions>) -> Seq<InputOptionsView> {
    v.map_values(|o: NodeInputOptions| o@)
}

pub open spec fn outputs_view(v: Seq<NodeOutputOptions>) -> Seq<OutputOptionsView> {
    v.map_values(|o: NodeOutputOptions| o@)
}

fn text(s: &str) -> (r: String)
    ensures
        r@ == s@,
{
    s.to_string()
}

fn input(
    io: NodeIOType,
    can_alter_default: bool,
    has_connection: bool,
    name: &str,
    preset_values: Option<Vec<String>>,
    subtype: Option<NodeIOSubtypes>,
) -> (r: NodeInputOptions)
    ensures
        r@ == input_view(
            io@,
            can_alter_default,
            has_connection,
            name@,
            match preset_values {
                Some(v) => Some(strings_view(v)),
                None => None,
            },
            subtype,
        ),
{
    NodeInputOptions {
        IOType: io,
        canAlterDefault: can_alter_default,
        hasConnection: has_connection,
        name: text(name),
        presetValues: preset_values,
        subtype,
    }
}

fn output(io: NodeIOType, has_connection: bool, name: &str) -> (r: NodeOutputOptions)
    ensures
        r@ == output_view(io@, has_connection, name@),
{
    NodeOutputOptions { IOType: io, hasConnection: has_connection, name: text(name), subtype: None }
}

fn grayscale(name: &str) -> (r: NodeOutputOptions)
    ensures
        r@ == grayscale_output(name@),
{
    NodeOutputOptions {
        IOType: NodeIOType::DynamicImageType(BitmapValue::Empty),
        hasConnection: true,
        name: text(name),
        subtype: Some(NodeIOSubtypes::GrayscaleImage),
    }
}

fn float_value(s: &str) -> (r: NodeIOType)
    ensures
        r@ == IOValue::Float(s@),
{
    NodeIOType::FloatType(text(s))
}

fn empty_image() -> (r: NodeIOType)
    ensures
        r@ == IOValue::DynamicImage(BitmapValue::Empty),
{
    NodeIOType::DynamicImageType(BitmapValue::Empty)
}

fn presets(kind: NodeKind) -> (r: Vec<String>)
    requires
        kind == NodeKind::Blend || kind == NodeKind::Compose || kind == NodeKind::Math
            || kind == NodeKind::Move || kind == NodeKind::Resize || kind == NodeKind::Scale,
    ensures
        strings_view(r) == (match kind {
            NodeKind::Blend => blend_presets(),
            NodeKind::Compose => compose_presets(),
            NodeKind::Math => math_presets(),
            NodeKind::Move => move_presets(),
            NodeKind::Resize => resize_presets(),
            _ => scale_presets(),
        }),
{
    let mut r: Vec<String> = Vec::new();
    match kind {
        NodeKind::Blend => {
            r.push(text("multiply"));
            r.push(text("screen"));
            r.push(text("darken"));
            r.push(text("lighten"));
            r.push(text("color dodge"));
            r.push(text("color burn"));
            r.push(text("linear dodge"));
            r.push(text("linear burn"));
            assert(strings_view(r) =~= blend_presets());
        },
        NodeKind::Compose => {
            r.push(text("overlay"));
            r.push(text("mask"));
            r.push(text("inverse mask"));
            r.push(text("atop"));
            r.push(text("neither"));
            r.push(text("foreground"));
            assert(strings_view(r) =~= compose_presets());
        },
        NodeKind::Math => {
            r.push(text("add"));
            r.push(text("subtract"));
            r.push(text("multiply"));
            r.push(text("divide"));
            assert(strings_view(r) =~= math_presets());
        },
        NodeKind::Move => {
            r.push(text("clamp"));
            r.push(text("extend"));
            r.push(text("wrap"));
            assert(strings_view(r) =~= move_presets());
        },
        NodeKind::Resize => {
            r.push(text("clamp"));
            r.push(text("resize"));
            assert(strings_view(r) =~= resize_presets());
        },
        _ => {
            r.push(text("fast"));
            r.push(text("precise"));
            assert(strings_view(r) =~= scale_presets());
        },
    }
    r
}

impl NodeKind {
    /// The input sockets of this kind of node, with their default values.
    #[verifier::rlimit(40)]
    pub fn get_inputs_static(self) -> (r: Vec<NodeInputOptions>)
        ensures
            inputs_view(r@) == spec_inputs(self),
    {
        let mut r: Vec<NodeInputOptions> = Vec::new();
        match self {
            NodeKind::Final => {
                r.push(input(NodeIOType::BitmapType(BitmapValue::Filled { width: 500, height: 500, color: [100u8, 0u8, 50u8, 255u8] }), false, true, "bitmap", None, None));
            },
            NodeKind::ImageInput => {
                r.push(input(NodeIOType::StringType(text("dummy.png")), true, false, "path", None, Some(NodeIOSubtypes::FilePath)));
            },
            NodeKind::ColorToImage => {
                r.push(input(NodeIOType::ColorType([100u8, 100u8, 100u8, 255u8]), true, true, "color", None, None));
                r.push(input(float_value("500"), true, true, "width", None, None));
                r.push(input(float_value("500"), true, true, "height", None, None));
            },
            NodeKind::Math => {
                r.push(input(NodeIOType::IntType(0), true, false, "operation", Some(presets(NodeKind::Math)), None));
                r.push(input(float_value("0"), true, true, "x", None, None));
                r.push(input(float_value("0"), true, true, "y", None, None));
            },
            NodeKind::Rotation => {
                r.push(input(NodeIOType::BitmapType(BitmapValue::Empty), false, true, "bitmap", None, None));
                r.push(input(float_value("0"), true, true, "angle", None, None));
            },
            NodeKind::Blend => {
                r.push(input(NodeIOType::IntType(0), true, false, "mode", Some(presets(NodeKind::Blend)), None));
                r.push(input(empty_image(), false, true, "foreground", None, None));
                r.push(input(empty_image(), false, true, "background", None, None));
            },
            NodeKind::Compose => {
                r.push(input(NodeIOType::IntType(0), true, false, "mode", Some(presets(NodeKind::Compose)), None));
                r.push(input(empty_image(), false, true, "foreground", None, None));
                r.push(input(empty_image(), false, true, "background", None, None));
            },
            NodeKind::Invert => {
                r.push(input(empty_image(), false, true, "inverting", None, None));
            },
            NodeKind::OverlayWithMask => {
                r.push(input(empty_image(), false, true, "top", None, None));
                r.push(input(empty_image(), false, true, "bottom", None, None));
                r.push(input(empty_image(), false, true, "mask", None, Some(NodeIOSubtypes::GrayscaleImage)));
            },
            NodeKind::Move => {
                r.push(input(NodeIOType::IntType(0), true, false, "mode", Some(presets(NodeKind::Move)), None));
                r.push(input(empty_image(), false, true, "moving", None, None));
                r.push(input(float_value("0"), true, true, "x", None, None));
                r.push(input(float_value("0"), true, true, "y", None, None));
            },
            NodeKind::Resize => {
                r.push(input(NodeIOType::IntType(0), true, false, "mode", Some(presets(NodeKind::Resize)), None));
                r.push(input(NodeIOType::BitmapType(BitmapValue::Empty), false, true, "resizing", None, None));
                r.push(input(float_value("0"), true, true, "x", None, None));
                r.push(input(float_value("0"), true, true, "y", None, None));
            },
            NodeKind::Scale => {
                r.push(input(NodeIOType::IntType(0), true, false, "mode", Some(presets(NodeKind::Scale)), None));
                r.push(input(empty_image(), false, true, "scaling", None, None));
                r.push(input(float_value("1"), true, true, "x", None, None));
                r.push(input(float_value("1"), true, true, "y", None, None));
            },
            NodeKind::LumaToGrayscale => {
                r.push(input(NodeIOType::LumaType(255), true, true, "luma", None, None));
                r.push(input(float_value("500"), true, true, "width", None, None));
                r.push(input(float_value("500"), true, true, "height", None, None));
            },
            NodeKind::SeparateRGBA => {
                r.push(input(empty_image(), true, true, "separating", None, Some(NodeIOSubtypes::ColorImage)));
            },
            _ => {},
        }
        assert(inputs_view(r@) =~= spec_inputs(self));
        r
    }

    /// The output sockets of this kind of node.
    #[verifier::rlimit(40)]
    pub fn get_outputs_static(self) -> (r: Vec<NodeOutputOptions>)
        ensures
            outputs_view(r@) == spec_outputs(self),
    {
        let mut r: Vec<NodeOutputOptions> = Vec::new();
        if self == NodeKind::SeparateRGBA {
            r.push(grayscale("red"));
            r.push(grayscale("green"));
            r.push(grayscale("blue"));
            r.push(grayscale("alpha"));
            assert(outputs_view(r@) =~= spec_outputs(self));
            return r;
        }
        let o = match self {
            NodeKind::Final => output(NodeIOType::BitmapType(BitmapValue::Empty), false, ""),
            NodeKind::ImageInput => output(NodeIOType::BitmapType(BitmapValue::Empty), true, "bitmap"),
            NodeKind::ColorToImage => output(NodeIOType::BitmapType(BitmapValue::Empty), true, "bitmap"),
            NodeKind::Math => output(float_value("0"), true, "result"),
            NodeKind::Rotation => output(NodeIOType::BitmapType(BitmapValue::Empty), true, "rotated"),
            NodeKind::Blend => output(empty_image(), true, "mixed"),
            NodeKind::Compose => output(empty_image(), true, "mixed"),
            NodeKind::Invert => output(empty_image(), true, "inverted"),
            NodeKind::OverlayWithMask => output(empty_image(), true, "overlayed"),
            NodeKind::Move => output(empty_image(), true, "moved"),
            NodeKind::Resize => output(NodeIOType::BitmapType(BitmapValue::Empty), true, "resized"),
            NodeKind::Scale => output(empty_image(), true, "Scaled"),
            NodeKind::LumaToGrayscale => grayscale("grayscale"),
            NodeKind::SeparateRGBA => grayscale("red"),
            NodeKind::BitmapLiteral => output(NodeIOType::BitmapType(BitmapValue::Empty), true, ""),
            NodeKind::ColorLiteral => output(NodeIOType::ColorType([255u8, 255u8, 255u8, 255u8]), true, ""),
            NodeKind::FloatLiteral => output(float_value("0"), true, ""),
            NodeKind::IntLiteral => output(NodeIOType::IntType(0), true, ""),
            NodeKind::StringLiteral => output(NodeIOType::StringType(text("")), true, ""),
            NodeKind::DynamicImageLiteral => output(empty_image(), true, ""),
            NodeKind::LumaLiteral => output(NodeIOType::LumaType(255), true, ""),
        };
        r.push(o);
        assert(outputs_view(r@) =~= spec_outputs(self));
        r
    }

    /// The display name of this kind of node.
    pub fn get_node_name_static(self) -> (r: String)
        ensures
            r@ == spec_name(self),
    {
        match self {
            NodeKind::Final => text("Final"),
            NodeKind::ImageInput => text("Image input"),
            NodeKind::ColorToImage => text("Color to image"),
            NodeKind::Math => text("Math"),
            NodeKind::Rotation => text("Rotate"),
            NodeKind::Blend => text("Blend"),
            NodeKind::Compose => text("Compose"),
            NodeKind::Invert => text("Invert"),
            NodeKind::OverlayWithMask => text("Overlay with mask"),
            NodeKind::Move => text("Move"),
            NodeKind::Resize => text("Resize"),
            NodeKind::Scale => text("Scale"),
            NodeKind::LumaToGrayscale => text("Luma to grayscale"),
            NodeKind::SeparateRGBA => text("Separate RGBA"),
            NodeKind::BitmapLiteral => text("Bitmap literal"),
            NodeKind::ColorLiteral => text("Color literal"),
            NodeKind::FloatLiteral => text("Float literal"),
            NodeKind::IntLiteral => text("integer literal"),
            NodeKind::StringLiteral => text("String literal"),
            NodeKind::DynamicImageLiteral => text("Dynamic image literal"),
            NodeKind::LumaLiteral => text("Luma literal"),
        }
    }

    /// Everything a user interface needs to offer this kind of node.
    pub fn get_node_descriptor(self) -> (r: NodeDescriptor)
        ensures
            inputs_view(r.inputNodes@) == spec_inputs(self),
            outputs_view(r.outputNodes@) == spec_outputs(self),
            r.name@ == spec_name(self),
    {
        NodeDescriptor {
            inputNodes: self.get_inputs_static(),
            outputNodes: self.get_outputs_static(),
            name: self.get_node_name_static(),
        }
    }
}

/// The sockets and name of a node kind, as offered to a user interface.
#[derive(Debug)]
pub struct NodeDescriptor {
    pub inputNodes: Vec<NodeInputOptions>,
    pub outputNodes: Vec<NodeOutputOptions>,
    pub name: String,
}

} // verus!
