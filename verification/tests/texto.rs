use insysin_lib::commands::network::{classificar_interface, TipoInterface};
use insysin_lib::commands::wifi::{find_iface_in_section, url_fornecedor};
use insysin_lib::services::hardware_service::eh_zona_de_cpu;
use insysin_lib::texto::{
    acrescentar_unico, analisar_hex_u32, analisar_i32, analisar_u16, analisar_u32, analisar_u64, analisar_u8,
    aparar, caracteres, comeca_str, contem_str, dividir, escrever_decimal, espaco, iguais,
    juntar_com_espaco, menor_igual, menos_bytes_que, primeira_ocorrencia,
    segundo_pedaco_de, separar_linhas, separar_palavras, str_igual, texto_de, texto_ou_vazio_de,
    tirar_parenteses, tirar_prefixo, ultima_posicao,
};

fn cs(s: &str) -> Vec<char> {
    s.chars().collect()
}

fn textos(v: &Vec<Vec<char>>) -> Vec<String> {
    v.iter().map(|w| w.iter().collect()).collect()
}

#[test]
fn caracteres_e_texto_de_ida_e_volta() {
    let v = caracteres("olá, mundo");
    assert_eq!(v, cs("olá, mundo"));
    assert_eq!(texto_de(&v), "olá, mundo");
}

#[test]
fn aparar_como_trim() {
    for s in ["  a b  ", "\t\nx\r\n", "", "   ", "\u{3000}y\u{A0}", "sem"] {
        let r: String = aparar(&cs(s)).into_iter().collect();
        assert_eq!(r, s.trim());
    }
}

#[test]
fn espaco_como_is_whitespace() {
    for c in [' ', '\t', '\n', '\u{A0}', '\u{2003}', 'a', '0', '_', '\u{200B}'] {
        assert_eq!(espaco(c), c.is_whitespace());
    }
}

#[test]
fn separar_palavras_como_split_whitespace() {
    for s in ["  um  dois\ttres \n", "", "x", "a  b"] {
        let esperado: Vec<String> = s.split_whitespace().map(|w| w.to_string()).collect();
        assert_eq!(textos(&separar_palavras(&cs(s))), esperado);
    }
}

#[test]
fn separar_linhas_como_lines() {
    for s in ["a\nb\r\nc", "a\n", "", "\n\n", "x\r\ny\n"] {
        let esperado: Vec<String> = s.lines().map(|l| l.to_string()).collect();
        assert_eq!(textos(&separar_linhas(&cs(s))), esperado);
    }
}

#[test]
fn dividir_como_split() {
    for s in ["1.2.3.4", "", "..", "a.b."] {
        let esperado: Vec<String> = s.split('.').map(|l| l.to_string()).collect();
        assert_eq!(textos(&dividir(&cs(s), '.')), esperado);
    }
}

#[test]
fn analisar_inteiros_como_parse() {
    for s in ["0", "42", "+7", "-1", "", "+", "18446744073709551615", "18446744073709551616", "1a", "255", "256", "65535", "65536", "4294967295", "4294967296"] {
        assert_eq!(analisar_u64(&cs(s)), s.parse::<u64>().ok());
        assert_eq!(analisar_u32(&cs(s)), s.parse::<u32>().ok());
        assert_eq!(analisar_u16(&cs(s)), s.parse::<u16>().ok());
        assert_eq!(analisar_u8(&cs(s)), s.parse::<u8>().ok());
        assert_eq!(analisar_i32(&cs(s)), s.parse::<i32>().ok());
    }
    for s in ["-2147483648", "2147483647", "-2147483649", "2147483648", "-0", "--1"] {
        assert_eq!(analisar_i32(&cs(s)), s.parse::<i32>().ok());
    }
}

#[test]
fn analisar_hex_como_from_str_radix() {
    for s in ["ffffff00", "FFFFFFFF", "0", "+a", "", "100000000", "g1", "00ff"] {
        assert_eq!(analisar_hex_u32(&cs(s)), u32::from_str_radix(s, 16).ok());
    }
}

#[test]
fn escrever_decimal_como_display() {
    for n in [0u64, 7, 10, 255, 1234567890, u64::MAX] {
        let mut s = String::from("n=");
        escrever_decimal(n, &mut s);
        assert_eq!(s, format!("n={}", n));
    }
}

#[test]
fn prefixos_e_ocorrencias() {
    assert_eq!(tirar_prefixo(&cs("inet 10.0.0.1"), "inet "), Some(cs("10.0.0.1")));
    assert_eq!(tirar_prefixo(&cs("inet"), "inet "), None);
    assert!(comeca_str(&cs("utun3"), "utun"));
    assert!(!comeca_str(&cs("ut"), "utun"));
    assert!(contem_str(&cs("x86_pkg_temp"), "x86_pkg"));
    assert!(!contem_str(&cs("gpu"), "cpu"));
    assert_eq!(primeira_ocorrencia(&cs("a->b->c"), &cs("->")), Some(1));
    assert_eq!(primeira_ocorrencia(&cs("abc"), &cs("->")), None);
    assert_eq!(ultima_posicao(&cs("a (b) (c)"), '('), Some(6));
    assert_eq!(ultima_posicao(&cs("abc"), '('), None);
}

#[test]
fn comparacoes_de_texto() {
    assert!(iguais(&cs("abc"), &cs("abc")));
    assert!(!iguais(&cs("abc"), &cs("abd")));
    assert!(str_igual("LISTEN", "LISTEN"));
    assert!(!str_igual("LISTEN", "LISTENING"));
    for (a, b) in [("HTTP", "HTTPS"), ("SSH", "HTTP"), ("", "x"), (":80", "DNS"), ("b", "b")] {
        assert_eq!(menor_igual(&cs(a), &cs(b)), a <= b);
    }
}

#[test]
fn maiusculas_minusculas_e_alfanumericos_pelas_funcoes_publicas() {
    assert_eq!(classificar_interface("ÉN0"), TipoInterface::Especial);
    assert_eq!(classificar_interface("BRIDGE0"), TipoInterface::Virtual);
    assert!(eh_zona_de_cpu("ACPITZ"));
    assert_eq!(url_fornecedor("ab:cd:ef:01:23:45"), Some("https://api.macvendors.com/AB-CD-EF-01-23-45".to_string()));
    let texto = "wlan_0-x: flags\n\tinet 10.0.0.1\nmá#l: flags\n\tinet 10.0.0.2\n";
    assert_eq!(find_iface_in_section(texto, "\tinet 10.0.0.1"), Some("wlan_0-x".to_string()));
    assert_eq!(find_iface_in_section(texto, "\tinet 10.0.0.2"), Some("wlan_0-x".to_string()));
    assert_eq!(find_iface_in_section("é1: f\n\tinet x\n", "\tinet x"), Some("é1".to_string()));
}

#[test]
fn pedacos_parenteses_e_juntar() {
    assert_eq!(segundo_pedaco_de(&cs("Stats: (page size of 4096 bytes)"), &['(']), Some(cs("page size of 4096 bytes)")));
    assert_eq!(segundo_pedaco_de(&cs("a(b(c"), &['(']), Some(cs("b")));
    assert_eq!(segundo_pedaco_de(&cs("sem"), &['(']), None);
    assert_eq!(tirar_parenteses(&cs("(192.168.1.1)")), cs("192.168.1.1"));
    assert_eq!(tirar_parenteses(&cs("()")), cs(""));
    let ws = vec![cs("a"), cs("b"), cs("c")];
    assert_eq!(juntar_com_espaco(&ws, 1), cs("b c"));
    assert_eq!(juntar_com_espaco(&ws, 3), cs(""));
}

#[test]
fn bytes_utf8_e_unicos() {
    assert!(menos_bytes_que(&cs("aa:bb:cc:dd:ee:f"), 17));
    assert!(!menos_bytes_que(&cs("aa:bb:cc:dd:ee:ff"), 17));
    assert!(!menos_bytes_que(&cs("ééééééééé"), 17));
    let mut l: Vec<String> = vec!["8.8.8.8".to_string()];
    acrescentar_unico(&mut l, &cs("8.8.8.8"));
    acrescentar_unico(&mut l, &cs("1.1.1.1"));
    assert_eq!(l, vec!["8.8.8.8".to_string(), "1.1.1.1".to_string()]);
    assert_eq!(texto_ou_vazio_de(None), "");
    assert_eq!(texto_ou_vazio_de(Some("x".to_string())), "x");
}
