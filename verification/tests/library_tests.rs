use photo_graph::graph::{Command, Commands, GraphError};
use photo_graph::modes::{BlendMode, CompositionType, MoveMode, ResizeMode, RotationMode, ScaleMode};
use photo_graph::node::{BitmapValue, IOKind, NodeIOType, NodeKind};
use photo_graph::nodes::{MathNode, Node, NodeError};
use photo_graph::pixel::{
    darken_formula, invert_rgba, inverse_of_add, lighten_formula, saturating_add_rgba,
    saturating_subtract_rgba,
};
use photo_graph::upload::{plan_upload, UploadError};
use photo_graph::text::{is_float_text, parse_i64_str, parse_u16, parse_u8, parse_usize, str_eq};
use photo_graph::util::{
    error_text, graph_from_history, image_source, is_clean, sanitize, web_file, ImageSource, LoadError, WebFile,
};

#[test]
fn simple_conversion() {
    let e: MoveMode = 1.try_into().unwrap();
    assert_eq!(e, MoveMode::extend);
}

#[test]
fn modes_follow_declaration_order() {
    assert_eq!(BlendMode::try_from(0), Ok(BlendMode::multiply));
    assert_eq!(BlendMode::try_from(7), Ok(BlendMode::linearBurn));
    assert_eq!(BlendMode::try_from(8), Err(()));
    assert_eq!(CompositionType::try_from(5), Ok(CompositionType::foreground));
    assert_eq!(CompositionType::try_from(-1), Err(()));
    assert_eq!(MoveMode::try_from(2), Ok(MoveMode::wrap));
    assert_eq!(ResizeMode::try_from(1), Ok(ResizeMode::resize));
    assert_eq!(ResizeMode::try_from(2), Err(()));
    assert_eq!(RotationMode::try_from(2), Ok(RotationMode::inPlace));
    assert_eq!(ScaleMode::try_from(0), Ok(ScaleMode::fast));
    assert_eq!(ScaleMode::try_from(i64::MAX), Err(()));
}

#[test]
fn sanitize_keeps_only_the_last_period_of_a_file_name() {
    assert_eq!(sanitize("a.b.c", false), "ab.c");
    assert_eq!(sanitize("a.b.c", true), "abc");
    assert_eq!(sanitize("..\\..//etc/passwd", false), ".etcpasswd");
    assert_eq!(sanitize("photo.png", false), "photo.png");
    assert_eq!(sanitize("", false), "");
    assert_eq!(sanitize("é.x.ü", false), "éx.ü");
}

#[test]
fn sanitize_twice_changes_nothing() {
    for name in ["a.b.c", "x/y\\z.q", "...", "plain"] {
        for dir in [false, true] {
            let once = sanitize(name, dir);
            assert_eq!(sanitize(&once, dir), once);
        }
    }
}

#[test]
fn clean_names() {
    assert!(is_clean("alice", true));
    assert!(!is_clean("al.ice", true));
    assert!(is_clean("al.ice", false));
    assert!(!is_clean("a/b", false));
}

#[test]
fn integers_are_read_like_str_parse() {
    assert_eq!(parse_usize("42"), Some(42));
    assert_eq!(parse_usize("+7"), Some(7));
    assert_eq!(parse_usize("-7"), None);
    assert_eq!(parse_usize(""), None);
    assert_eq!(parse_usize("4 2"), None);
    assert_eq!(parse_u16("65535"), Some(65535));
    assert_eq!(parse_u16("65536"), None);
    assert_eq!(parse_u8("255"), Some(255));
    assert_eq!(parse_u8("256"), None);
    assert_eq!(parse_i64_str("-9223372036854775808"), Some(i64::MIN));
    assert_eq!(parse_i64_str("9223372036854775808"), None);
    assert_eq!(parse_i64_str("-0"), Some(0));
}

#[test]
fn float_texts_are_those_f64_parse_accepts() {
    for t in ["1", "1.5", ".5", "5.", "-2.5e3", "+1E-7", "inf", "-Infinity", "NaN", "1e5"] {
        assert!(is_float_text(t), "{}", t);
        assert!(t.parse::<f64>().is_ok());
    }
    for t in ["", ".", "e5", "1e", "1.5.2", "--1", "in f", "0x10", "1_000"] {
        assert!(!is_float_text(t), "{}", t);
        assert!(t.parse::<f64>().is_err());
    }
}

#[test]
fn string_equality() {
    assert!(str_eq("Math", "Math"));
    assert!(!str_eq("Math", "Mat"));
    assert!(!str_eq("Math", "math"));
}

#[test]
fn pixel_formulas() {
    assert_eq!(saturating_add_rgba(&[200, 10, 0, 255], &[100, 20, 0, 1]), [255, 30, 0, 255]);
    assert_eq!(saturating_subtract_rgba(&[200, 10, 0, 5], &[100, 20, 0, 1]), [100, 0, 0, 4]);
    assert_eq!(invert_rgba(&[0, 100, 255, 7]), [255, 155, 0, 7]);
    assert_eq!(invert_rgba(&invert_rgba(&[1, 2, 3, 4])), [1, 2, 3, 4]);
    assert_eq!(inverse_of_add(&[200, 10, 0, 100], &[100, 20, 5, 200]), [0, 225, 250, 255]);
    let f = [10, 10, 10, 255];
    let b = [0, 0, 40, 0];
    assert_eq!(lighten_formula(&f, &b), b);
    assert_eq!(darken_formula(&f, &b), f);
    let g = [0, 0, 29, 9];
    assert_eq!(lighten_formula(&f, &g), f);
    assert_eq!(darken_formula(&f, &g), g);
}

#[test]
fn error_texts() {
    assert_eq!(error_text(GraphError::Cycle), "cycle");
    assert_eq!(error_text(GraphError::EdgeNotFound), "edge not found");
    assert_eq!(error_text(GraphError::NodeNotFound), "node not found");
    assert_eq!(error_text(GraphError::MismatchedNodes), "mismatched sockets");
    assert_eq!(error_text(GraphError::UnknownCommand), "unknown command");
    assert_eq!(error_text(GraphError::IllFormedCommand), "ill-formed command");
}

fn command(name: &str, args: &[&str]) -> Command {
    Command { name: name.to_string(), args: args.iter().map(|a| a.to_string()).collect() }
}

#[test]
fn graphs_are_rebuilt_from_their_history() {
    let history = Commands { commands: vec![command("addNode", &["Math"]), command("removeNode", &["2"])], graphID: 3 };
    let graph = graph_from_history(history).unwrap().unwrap();
    assert!(graph.node(2).is_none());
    assert_eq!(graph.commandHistory.commands.len(), 2);
    let bad = Commands { commands: vec![command("removeNode", &["2"])], graphID: 3 };
    assert!(matches!(graph_from_history(bad), Some(Err(LoadError::graphNotValid))));
    let broken = Commands { commands: vec![command("removeNode", &[])], graphID: 3 };
    assert!(graph_from_history(broken).is_none());
}

#[test]
fn node_catalog() {
    let d = NodeKind::Math.get_node_descriptor();
    assert_eq!(d.name, "Math");
    assert_eq!(d.inputNodes.len(), 3);
    assert_eq!(d.inputNodes[0].presetValues.as_ref().unwrap().len(), 4);
    assert_eq!(d.outputNodes[0].IOType.kind(), IOKind::Float);
    assert_eq!(NodeKind::IntLiteral.get_node_name_static(), "integer literal");
    assert_eq!(NodeKind::ImageInput.get_inputs_static()[0].name, "path");
    let n = Node::Math(MathNode::new());
    assert_eq!(n.get_node_name(), "Math");
    assert_eq!(n.get_inputs().len(), 3);
}

#[test]
fn node_socket_errors() {
    let n = Node::Math(MathNode::new());
    assert!(n.generate_output_errors(&0).is_ok());
    assert!(matches!(n.generate_output_errors(&1), Err(NodeError::InvalidOutputIndex(_, 1))));
    assert!(matches!(n.generate_output_errors(&2), Err(NodeError::InvalidOutputIndex(_, 2))));
    assert!(n.generate_input_errors(&1, &NodeIOType::FloatType("1".to_string())).is_ok());
    assert!(matches!(
        n.generate_input_errors(&1, &NodeIOType::IntType(1)),
        Err(NodeError::InvalidInput(_, _, 1))
    ));
    assert!(matches!(
        n.generate_input_errors(&4, &NodeIOType::BitmapType(BitmapValue::Empty)),
        Err(NodeError::InvalidInput(_, _, 4))
    ));
    assert!(matches!(
        n.generate_input_errors(&3, &NodeIOType::FloatType("1".to_string())),
        Err(NodeError::InvalidInput(_, _, 3))
    ));
}

#[test]
fn literal_nodes_hold_their_values() {
    let n = Node::literal(NodeIOType::LumaType(7));
    assert_eq!(n.kind(), NodeKind::LumaLiteral);
    match n.literal_value() {
        Some(NodeIOType::LumaType(v)) => assert_eq!(v, 7),
        _ => panic!("not a luma value"),
    }
    assert!(Node::Math(MathNode::new()).literal_value().is_none());
}

#[test]
fn image_sources() {
    match image_source("", "bob") {
        ImageSource::Web(f) => assert_eq!(f, "dummy.png"),
        _ => panic!("expected the default image"),
    }
    match image_source("dummy.png", "bob") {
        ImageSource::Web(f) => assert_eq!(f, "dummy.png"),
        _ => panic!("expected the default image"),
    }
    match image_source("../cat.v2.png", "b.o/b") {
        ImageSource::User(f) => assert_eq!(f, "bobcatv2.png"),
        _ => panic!("expected a user image"),
    }
}

#[test]
fn web_files() {
    assert_eq!(web_file("logo.png"), WebFile::Png);
    assert_eq!(web_file("png"), WebFile::Png);
    assert_eq!(web_file("style.css"), WebFile::Css);
    assert_eq!(web_file("main.html"), WebFile::Html);
    assert_eq!(web_file("archive.png.css"), WebFile::Css);
    assert_eq!(web_file("page"), WebFile::Html);
}

#[test]
fn commands_describe_themselves() {
    assert_eq!(command("addEdge", &["1", "2"]).describe(), "command: addEdge; arguments: 1 2 ");
    assert_eq!(command("moveNode", &[]).describe(), "command: moveNode; arguments: ");
}

#[test]
fn value_kind_names() {
    assert_eq!(NodeIOType::IntType(3).kind_text(), "int");
    assert_eq!(NodeIOType::FloatType("1".to_string()).kind_text(), "float");
    assert_eq!(NodeIOType::BitmapType(BitmapValue::Empty).kind_text(), "bitmap");
    assert_eq!(NodeIOType::ColorType([0, 0, 0, 0]).kind_text(), "color");
    assert_eq!(NodeIOType::StringType(String::new()).kind_text(), "string");
}

#[test]
fn separate_rgba_has_four_grayscale_outputs() {
    let d = NodeKind::SeparateRGBA.get_node_descriptor();
    assert_eq!(d.name, "Separate RGBA");
    assert_eq!(d.outputNodes.len(), 4);
    assert_eq!(d.outputNodes[3].name, "alpha");
    assert_eq!(NodeKind::LumaToGrayscale.get_inputs_static().len(), 3);
}

fn raster(width: u32, height: u32, opaque: &[(u32, u32)]) -> photo_graph::raster::Raster {
    let mut pixels = vec![[0u8, 0, 0, 0]; (width * height) as usize];
    for (i, (x, y)) in opaque.iter().enumerate() {
        pixels[(y * width + x) as usize] = [i as u8 + 1, 0, 0, 255];
    }
    photo_graph::raster::Raster { width, height, pixels }
}

#[test]
fn resize_clamps_to_the_opaque_pixels() {
    let r = raster(4, 3, &[(1, 1), (2, 2)]);
    let out = photo_graph::raster::resize(&r, ResizeMode::clamp, 1, 0).unwrap();
    assert_eq!((out.width, out.height), (3, 2));
    let clear = [0u8, 0, 0, 0];
    assert_eq!(out.pixels, vec![[1, 0, 0, 255], clear, clear, clear, [2, 0, 0, 255], clear]);
    let single = photo_graph::raster::resize(&raster(1, 1, &[(0, 0)]), ResizeMode::clamp, 0, 0).unwrap();
    assert_eq!((single.width, single.height), (1, 1));
    assert_eq!(single.pixels, vec![[1, 0, 0, 255]]);
    let bare = raster(2, 2, &[]);
    assert!(photo_graph::raster::resize(&bare, ResizeMode::clamp, 0, 0).is_none());
}

#[test]
fn resize_grows_the_whole_image() {
    let r = raster(2, 1, &[(0, 0)]);
    let out = photo_graph::raster::resize(&r, ResizeMode::resize, -1, 1).unwrap();
    assert_eq!((out.width, out.height), (1, 2));
    assert_eq!(out.pixels, vec![[1, 0, 0, 255], [0, 0, 0, 0]]);
    assert!(photo_graph::raster::resize(&r, ResizeMode::resize, i32::MAX, 0).is_none());
}

#[test]
fn opaque_box_is_tight() {
    let r = raster(5, 4, &[(3, 0), (1, 2), (2, 3)]);
    assert_eq!(photo_graph::raster::find_opaque_box(&r), Some((1, 3, 0, 3)));
    assert_eq!(photo_graph::raster::find_opaque_box(&raster(3, 3, &[])), None);
    assert_eq!(photo_graph::raster::pixel(&r, 3, 0), [1, 0, 0, 255]);
    assert_eq!(photo_graph::raster::pixel(&r, 9, 0), [0, 0, 0, 0]);
}

#[test]
fn move_sizes() {
    let f = photo_graph::raster::move_size;
    assert_eq!(f(10, 8, 3, -2, MoveMode::extend), Some(Ok((13, 6))));
    assert_eq!(f(10, 8, 3, -2, MoveMode::clamp), Some(Ok((10, 6))));
    assert_eq!(f(10, 8, 3, -2, MoveMode::wrap), Some(Ok((10, 8))));
    assert_eq!(f(10, 8, -10, 0, MoveMode::clamp), Some(Err(1)));
    assert_eq!(f(10, 8, 0, -9, MoveMode::extend), Some(Err(2)));
    assert_eq!(f(10, 8, i32::MAX, 0, MoveMode::extend), None);
}

fn png_bytes() -> Vec<u8> {
    let img = image::RgbaImage::from_fn(2, 1, |x, _| image::Rgba([x as u8 * 100, 7, 9, 255]));
    let mut bytes: Vec<u8> = Vec::new();
    img.write_to(&mut std::io::Cursor::new(&mut bytes), image::ImageFormat::Png).unwrap();
    bytes
}

#[test]
fn upload_decodes_and_names_the_file() {
    let (dir, name, raster) = plan_upload("my.pic", "bob/x", &png_bytes()).unwrap();
    assert_eq!(dir, "bobx");
    assert_eq!(name, "mypic.png");
    assert_eq!((raster.width, raster.height), (2, 1));
    assert_eq!(raster.pixels, vec![[0, 7, 9, 255], [100, 7, 9, 255]]);
}

#[test]
fn upload_refuses_bad_names_and_bad_images() {
    assert_eq!(plan_upload("./", "bob", &png_bytes()).err(), Some(UploadError::BadName));
    assert_eq!(plan_upload("", "bob", b"not an image").err(), Some(UploadError::BadName));
    assert_eq!(plan_upload("pic", "bob", b"not an image").err(), Some(UploadError::BadImage));
}
