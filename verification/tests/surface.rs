use trellis::blocking::{worker_thread_cap, WorkerThreadsError};
use trellis::surface::{opens_inherent_impl, public_method_name, public_methods};

#[test]
fn the_scan_sees_every_inherent_block_and_qualifier() {
    let source = "\
impl Fixture {
    pub async fn first(&self) {}
    pub(crate) fn hidden(&self) {}
    fn private(&self) {}
    pub fn generic<T>(&self) {}
}

impl fmt::Display for Fixture {
    pub fn not_inherent(&self) {}
}

mod nested {
    impl crate::app::Fixture {
        pub const fn pathed(&self) {}
        pub unsafe fn qualified(&self) {}
    }
}

impl OtherFixture {
    pub fn someone_else(&self) {}
}
"
    .to_string();
    let (methods, blocks) = public_methods(&[source], "Fixture");
    assert_eq!(blocks, 2);
    assert_eq!(methods, ["first", "generic", "pathed", "qualified"]);
}

#[test]
fn a_block_does_not_go_on_in_the_next_source() {
    let open = "impl A {\n    pub fn x(&self) {}\n".to_string();
    let stray = "    pub fn y(&self) {}\n".to_string();
    let (methods, blocks) = public_methods(&[open, stray], "A");
    assert_eq!(blocks, 1);
    assert_eq!(methods, ["x"]);
}

#[test]
fn headers_and_methods_are_told_apart_from_look_alikes() {
    assert!(opens_inherent_impl("  impl a::b::Trellis {", "Trellis"));
    assert!(!opens_inherent_impl("impl Trellis{", "Trellis"));
    assert!(!opens_inherent_impl("impl Debug for Trellis {", "Trellis"));
    assert_eq!(
        public_method_name("    pub const unsafe fn f<T>()", "    "),
        Some("f".to_string())
    );
    assert_eq!(public_method_name("    pub fn f", "    "), None);
    assert_eq!(public_method_name("  pub fn f()", "    "), None);
}

#[test]
fn a_runtime_cannot_be_capped_at_no_threads() {
    assert_eq!(worker_thread_cap(None), Ok(None));
    assert_eq!(worker_thread_cap(Some(3)), Ok(Some(3)));
    let err = worker_thread_cap(Some(0)).unwrap_err();
    assert_eq!(err, WorkerThreadsError::Zero);
    assert!(err.message().contains("worker_threads"));
}
