//! What the node editor shows for each kind of node and of data: labels, colours,
//! categories and ports. Drawing them is left to the editor.

use vstd::prelude::*;

verus! {

/// The kinds of data that a port carries. Only ports of one kind can be joined.
#[derive(Clone, Copy, Debug, PartialEq, Eq, Structural)]
pub enum MyDataType {
    RgbColor,
    RgbImage,
}

impl MyDataType {
    /// The name of the kind of data.
    pub open spec fn spec_name(self) -> Seq<char> {
        match self {
            MyDataType::RgbColor => "RGB Color"@,
            MyDataType::RgbImage => "RGB Image"@,
        }
    }

    /// The name under which the editor shows the kind of data.
    pub fn name(&self) -> (name: &'static str)
        ensures
            name@ == self.spec_name(),
    {
        match self {
            MyDataType::RgbColor => "RGB Color",
            MyDataType::RgbImage => "RGB Image",
        }
    }

    /// The colour of the ports of this kind of data, as red, green and blue.
    pub fn data_type_color(&self) -> (rgb: (u8, u8, u8))
        ensures
            rgb == match self {
                MyDataType::RgbColor => (235u8, 76u8, 52u8),
                MyDataType::RgbImage => (52u8, 79u8, 235u8),
            },
    {
        match self {
            MyDataType::RgbColor => (235, 76, 52),
            MyDataType::RgbImage => (52, 79, 235),
        }
    }
}

/// How the value of an input is set.
#[derive(Clone, Copy, Debug, PartialEq, Eq, Structural)]
pub enum PortKind {
    /// By a widget in the node, never by a connection.
    ConstantOnly,
    /// By a connection, never by a widget.
    ConnectionOnly,
}

/// An input of a node in the editor.
#[derive(Clone, Copy, Debug)]
pub struct InputPort {
    pub name: &'static str,
    pub data_type: MyDataType,
    pub kind: PortKind,
    pub shown_inline: bool,
}

/// An output of a node in the editor.
#[derive(Clone, Copy, Debug)]
pub struct OutputPort {
    pub name: &'static str,
    pub data_type: MyDataType,
}

/// The kinds of node that the editor offers.
#[derive(Clone, Copy, Debug, PartialEq, Eq, Structural)]
pub enum MyNodeTemplate {
    SolidColor,
    BlendColor,
}

/// What the editor keeps with each node: the kind it was made from.
#[derive(Clone, Copy, Debug, PartialEq, Eq, Structural)]
pub struct MyNodeData {
    pub template: MyNodeTemplate,
}

impl MyNodeTemplate {
    /// The label of the kind of node.
    pub open spec fn spec_label(self) -> Seq<char> {
        match self {
            MyNodeTemplate::SolidColor => "Solid color"@,
            MyNodeTemplate::BlendColor => "Blend color"@,
        }
    }

    /// The category of the kind of node.
    pub open spec fn spec_category(self) -> Seq<char> {
        match self {
            MyNodeTemplate::SolidColor => "Generator nodes"@,
            MyNodeTemplate::BlendColor => "Transformation nodes"@,
        }
    }

    /// The label under which the node finder lists the kind of node.
    pub fn node_finder_label(&self) -> (label: &'static str)
        ensures
            label@ == self.spec_label(),
    {
        match self {
            MyNodeTemplate::SolidColor => "Solid color",
            MyNodeTemplate::BlendColor => "Blend color",
        }
    }

    /// The categories under which the node finder lists the kind of node: one each.
    pub fn node_finder_categories(&self) -> (categories: Vec<&'static str>)
        ensures
            categories@.len() == 1,
            categories@[0]@ == self.spec_category(),
    {
        let mut categories = Vec::new();
        match self {
            MyNodeTemplate::SolidColor => categories.push("Generator nodes"),
            MyNodeTemplate::BlendColor => categories.push("Transformation nodes"),
        }
        categories
    }

    /// The label of a node of this kind in the graph: the label of the kind.
    pub fn node_graph_label(&self) -> (label: &'static str)
        ensures
            label@ == self.spec_label(),
    {
        self.node_finder_label()
    }

    /// What the editor keeps with a node of this kind.
    pub fn user_data(&self) -> (data: MyNodeData)
        ensures
            data.template == *self,
    {
        MyNodeData { template: *self }
    }

    /// The number of inputs that a node of this kind has.
    pub open spec fn spec_input_count(self) -> nat {
        match self {
            MyNodeTemplate::SolidColor => 1,
            MyNodeTemplate::BlendColor => 2,
        }
    }

    /// The inputs of a node of this kind, in the order in which the editor adds them: a
    /// colour constant for a solid colour, and two connected images for a blend. All are
    /// shown inline.
    pub fn input_ports(&self) -> (ports: Vec<InputPort>)
        ensures
            ports@.len() == self.spec_input_count(),
            forall|i: int| 0 <= i < ports@.len() ==> (#[trigger] ports@[i]).shown_inline,
            *self == MyNodeTemplate::SolidColor ==> {
                &&& ports@[0].name@ == "color"@
                &&& ports@[0].data_type == MyDataType::RgbColor
                &&& ports@[0].kind == PortKind::ConstantOnly
            },
            *self == MyNodeTemplate::BlendColor ==> {
                &&& ports@[0].name@ == "A"@
                &&& ports@[1].name@ == "B"@
                &&& ports@[0].data_type == MyDataType::RgbImage
                &&& ports@[1].data_type == MyDataType::RgbImage
                &&& ports@[0].kind == PortKind::ConnectionOnly
                &&& ports@[1].kind == PortKind::ConnectionOnly
            },
    {
        let mut ports = Vec::new();
        match self {
            MyNodeTemplate::SolidColor => {
                ports.push(
                    InputPort {
                        name: "color",
                        data_type: MyDataType::RgbColor,
                        kind: PortKind::ConstantOnly,
                        shown_inline: true,
                    },
                );
            },
            MyNodeTemplate::BlendColor => {
                ports.push(
                    InputPort {
                        name: "A",
                        data_type: MyDataType::RgbImage,
                        kind: PortKind::ConnectionOnly,
                        shown_inline: true,
                    },
                );
                ports.push(
                    InputPort {
                        name: "B",
                        data_type: MyDataType::RgbImage,
                        kind: PortKind::ConnectionOnly,
                        shown_inline: true,
                    },
                );
            },
        }
        ports
    }

    /// The output of a node of this kind: an image named `out`.
    pub fn output_port(&self) -> (port: OutputPort)
        ensures
            port.name@ == "out"@,
            port.data_type == MyDataType::RgbImage,
    {
        OutputPort { name: "out", data_type: MyDataType::RgbImage }
    }
}

/// What a node asks of the editor while it is drawn. `Id` is the editor's name for a node.
#[derive(Clone, Copy, Debug, PartialEq, Eq)]
pub enum MyResponse<Id> {
    SetActiveNode(Id),
    ClearActiveNode,
}

impl<Id> MyResponse<Id> {
    /// The active node once the editor has followed the response: the node that the
    /// response names, or none.
    pub fn active_node(self) -> (active: Option<Id>)
        ensures
            active == match self {
                MyResponse::SetActiveNode(node) => Some(node),
                MyResponse::ClearActiveNode => None::<Id>,
            },
    {
        match self {
            MyResponse::SetActiveNode(node) => Some(node),
            MyResponse::ClearActiveNode => None,
        }
    }
}

/// The list of the kinds of node that the editor offers.
pub struct AllMyNodeTemplates;

impl AllMyNodeTemplates {
    /// Every kind of node, in the order of their declaration.
    pub fn all_kinds(&self) -> (kinds: Vec<MyNodeTemplate>)
        ensures
            kinds@ == seq![MyNodeTemplate::SolidColor, MyNodeTemplate::BlendColor],
    {
        let mut kinds = Vec::new();
        kinds.push(MyNodeTemplate::SolidColor);
        kinds.push(MyNodeTemplate::BlendColor);
        kinds
    }
}

} // verus!
