//! The types behind the command line: parsed arguments and the SVG
//! subcommand's state.  Argument parsing and file output live outside the
//! library; these types carry the decisions.

use vstd::prelude::*;

verus! {

/// Arguments of the SVG rendering subcommand.
pub struct SvgArgs {
    /// Output path for the SVG file.
    pub output: String,
    /// Render only this layer; an animation over all layers otherwise.
    pub layer: Option<usize>,
    pub grid: bool,
    /// The width of the SVG frame.
    pub frame_width: Option<usize>,
    pub stl_path: String,
}

/// The parsed command line: which subcommand to run.
pub struct Args {
    pub command: Commands,
}

/// The subcommands the tool offers.
pub enum Commands {
    Svg(SvgArgs),
}

/// The SVG subcommand: its arguments, plus one visibility slot per layer
/// when an animation over all layers is wanted.
pub struct SvgCommand {
    args: SvgArgs,
    animation_state: Option<Vec<&'static str>>,
}

impl SvgCommand {
    /// The arguments this command was built from.
    pub closed spec fn spec_args(&self) -> SvgArgs {
        self.args
    }

    /// The animation slots, present exactly when all layers are rendered.
    pub closed spec fn spec_animation_state(&self) -> Option<Seq<&'static str>> {
        match self.animation_state {
            Some(v) => Some(v@),
            None => None,
        }
    }

    /// Keeps the arguments and prepares an empty animation exactly when no
    /// single layer was selected.
    pub fn from_args(args: SvgArgs) -> (r: SvgCommand)
        ensures
            r.spec_args() == args,
            args.layer is None ==> r.spec_animation_state() == Some(Seq::<&'static str>::empty()),
            args.layer is Some ==> r.spec_animation_state() is None,
    {
        let animation_state: Option<Vec<&'static str>> = if args.layer.is_none() {
            Some(Vec::new())
        } else {
            None
        };
        let r = SvgCommand { args, animation_state };
        proof {
            if r.spec_args().layer is None {
                assert(r.spec_animation_state()->0 =~= Seq::<&'static str>::empty());
            }
        }
        r
    }
}

} // verus!
