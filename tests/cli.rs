use layout::cli::{get_action, parse_size, size_values, Action, RenderArgs};

#[test]
fn parse_size_reads_width_and_height() {
    assert_eq!(parse_size("800x600"), (800, 600));
    assert_eq!(parse_size("+1x2x3"), (1, 2));
}

#[test]
fn size_values_skip_fields_that_are_not_numbers() {
    assert_eq!(size_values("axx10x+20x-3x+"), vec![10, 20]);
    assert_eq!(size_values(""), Vec::<u32>::new());
    assert_eq!(size_values("4294967295x4294967296"), vec![4294967295]);
}

#[test]
fn render_once_action() {
    let args = RenderArgs {
        html: "page.html".to_string(),
        size: "1024x768".to_string(),
        output: "out.png".to_string(),
        once: true,
    };
    match get_action(Some(args)) {
        Action::RenderOnce(p) => {
            assert_eq!(p.html_path, "page.html");
            assert_eq!(p.output_path, "out.png");
            assert_eq!(p.viewport_size, (1024, 768));
        }
        Action::StartMain => panic!("expected a single render"),
    }
}

#[test]
fn without_once_the_browser_starts() {
    let args = RenderArgs {
        html: "page.html".to_string(),
        size: "1x1".to_string(),
        output: "out.png".to_string(),
        once: false,
    };
    assert!(matches!(get_action(Some(args)), Action::StartMain));
    assert!(matches!(get_action(None), Action::StartMain));
}
