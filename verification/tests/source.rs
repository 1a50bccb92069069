use task::{TaskSource, TaskTemplate, TaskTemplates};

struct Counting {
    label: String,
}

impl TaskSource<usize> for Counting {
    fn tasks_to_schedule(&mut self, cx: &mut usize) -> TaskTemplates {
        *cx += 1;
        TaskTemplates(vec![TaskTemplate {
            label: format!("{} {}", self.label, cx),
            command: "true".to_string(),
            ..TaskTemplate::default()
        }])
    }
}

#[test]
fn source_hands_out_its_templates() {
    let mut source = Counting { label: "run".to_string() };
    let mut asked = 0;
    let first = source.tasks_to_schedule(&mut asked);
    let second = source.tasks_to_schedule(&mut asked);
    assert_eq!(asked, 2);
    assert_eq!(first.0.len(), 1);
    assert_eq!(first.0[0].label, "run 1");
    assert_eq!(second.0[0].label, "run 2");
}
