use tesseract::config::TesseractConfig;

#[test]
fn test_default_config() {
    let cfg = TesseractConfig::default();
    assert_eq!(cfg.host, "localhost");
    assert_eq!(cfg.port, 8081);
    assert_eq!(cfg.timeout_ms, 5000);
}

#[test]
fn test_base_url() {
    let cfg = TesseractConfig::new("0.0.0.0", 3000, 1000);
    assert_eq!(cfg.base_url(), "http://0.0.0.0:3000");
}

#[test]
fn base_url_of_extreme_ports() {
    assert_eq!(TesseractConfig::new("h", 0, 1).base_url(), "http://h:0");
    assert_eq!(TesseractConfig::new("db.local", 65535, 1).base_url(), "http://db.local:65535");
    assert_eq!(TesseractConfig::default().base_url(), "http://localhost:8081");
}
