use texture_graph::editor::{MyResponse, PortKind};
use texture_graph::{AllMyNodeTemplates, MyDataType, MyNodeTemplate};

#[test]
fn data_types_have_names_and_colours() {
    assert_eq!("RGB Color", MyDataType::RgbColor.name());
    assert_eq!("RGB Image", MyDataType::RgbImage.name());
    assert_eq!((235, 76, 52), MyDataType::RgbColor.data_type_color());
    assert_eq!((52, 79, 235), MyDataType::RgbImage.data_type_color());
}

#[test]
fn templates_have_labels_and_categories() {
    assert_eq!("Solid color", MyNodeTemplate::SolidColor.node_finder_label());
    assert_eq!("Blend color", MyNodeTemplate::BlendColor.node_finder_label());
    assert_eq!("Solid color", MyNodeTemplate::SolidColor.node_graph_label());
    assert_eq!("Blend color", MyNodeTemplate::BlendColor.node_graph_label());
    assert_eq!(vec!["Generator nodes"], MyNodeTemplate::SolidColor.node_finder_categories());
    assert_eq!(vec!["Transformation nodes"], MyNodeTemplate::BlendColor.node_finder_categories());
}

#[test]
fn node_data_remembers_the_template() {
    assert_eq!(MyNodeTemplate::SolidColor, MyNodeTemplate::SolidColor.user_data().template);
    assert_eq!(MyNodeTemplate::BlendColor, MyNodeTemplate::BlendColor.user_data().template);
}

#[test]
fn solid_colour_has_one_constant_input() {
    let ports = MyNodeTemplate::SolidColor.input_ports();
    assert_eq!(1, ports.len());
    assert_eq!("color", ports[0].name);
    assert_eq!(MyDataType::RgbColor, ports[0].data_type);
    assert_eq!(PortKind::ConstantOnly, ports[0].kind);
    assert!(ports[0].shown_inline);
    let output = MyNodeTemplate::SolidColor.output_port();
    assert_eq!("out", output.name);
    assert_eq!(MyDataType::RgbImage, output.data_type);
}

#[test]
fn blend_has_two_connected_image_inputs() {
    let ports = MyNodeTemplate::BlendColor.input_ports();
    assert_eq!(2, ports.len());
    assert_eq!("A", ports[0].name);
    assert_eq!("B", ports[1].name);
    for port in ports {
        assert_eq!(MyDataType::RgbImage, port.data_type);
        assert_eq!(PortKind::ConnectionOnly, port.kind);
        assert!(port.shown_inline);
    }
    let output = MyNodeTemplate::BlendColor.output_port();
    assert_eq!("out", output.name);
    assert_eq!(MyDataType::RgbImage, output.data_type);
}

#[test]
fn all_kinds_lists_both_templates() {
    assert_eq!(
        vec![MyNodeTemplate::SolidColor, MyNodeTemplate::BlendColor],
        AllMyNodeTemplates.all_kinds()
    );
}

#[test]
fn responses_set_and_clear_the_active_node() {
    assert_eq!(Some(7), MyResponse::SetActiveNode(7).active_node());
    assert_eq!(None, MyResponse::<i32>::ClearActiveNode.active_node());
}
